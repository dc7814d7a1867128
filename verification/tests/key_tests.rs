use monero_core::key::Error;
use monero_core::key::KeyPair;
use monero_core::key::Point;
use monero_core::key::Scalar;

#[test]
fn scalar_parse_round_trip() {
    let mut bytes = vec![0u8; 32];
    bytes[0] = 5;
    let s = Scalar::parse(&bytes).unwrap();
    assert_eq!(s.to_bytes(), bytes);
}

#[test]
fn scalar_parse_rejects_wrong_length() {
    match Scalar::parse(&[0u8; 31]) {
        Err(e) => assert_eq!(e, Error::InvalidLength),
        Ok(_) => panic!("length 31 accepted"),
    }
    match Scalar::parse(&[0u8; 33]) {
        Err(e) => assert_eq!(e, Error::InvalidLength),
        Ok(_) => panic!("length 33 accepted"),
    }
}

#[test]
fn scalar_parse_rejects_non_canonical() {
    // The group order itself: the smallest non-canonical value.
    let l: [u8; 32] = [
        0xed, 0xd3, 0xf5, 0x5c, 0x1a, 0x63, 0x12, 0x58, 0xd6, 0x9c, 0xf7, 0xa2, 0xde, 0xf9, 0xde,
        0x14, 0, 0, 0, 0, 0, 0, 0, 0, 0, 0, 0, 0, 0, 0, 0, 0x10,
    ];
    match Scalar::parse(&l) {
        Err(e) => assert_eq!(e, Error::NotCanonical),
        Ok(_) => panic!("non-canonical scalar accepted"),
    }
}

#[test]
fn scalar_arithmetic() {
    let one = Scalar::from_u64(1);
    let two = Scalar::from_u64(2);
    let three = Scalar::from_u64(3);
    assert!(one.add(&two) == three);
    assert!(three.sub(&two) == one);
    // Wraps modulo the group order: (0 - 1) + 1 == 0.
    let zero = Scalar::from_u64(0);
    let minus_one = zero.sub(&one);
    assert!(minus_one.add(&one) == zero);
}

#[test]
fn random_scalars_differ() {
    let a = Scalar::random();
    let b = Scalar::random();
    assert!(!(a == b));
}

#[test]
fn point_parse_round_trip() {
    let g = Point::mul_base(&Scalar::from_u64(1));
    let bytes = g.to_bytes();
    let parsed = Point::parse(&bytes).unwrap();
    assert_eq!(parsed.to_bytes(), bytes);
}

#[test]
fn point_parse_rejects_wrong_length() {
    match Point::parse(&[0u8; 31]) {
        Err(e) => assert_eq!(e, Error::InvalidLength),
        Ok(_) => panic!("length 31 accepted"),
    }
}

#[test]
fn point_parse_rejects_non_canonical() {
    // The field prime itself as the coordinate: a non-canonical encoding.
    let mut p = [0xffu8; 32];
    p[0] = 0xed;
    p[31] = 0x7f;
    match Point::parse(&p) {
        Err(e) => assert_eq!(e, Error::NotCanonical),
        Ok(_) => panic!("non-canonical point accepted"),
    }
}

#[test]
fn point_parse_rejects_off_curve() {
    // A coordinate whose curve equation has no solution.
    let mut b = [0u8; 32];
    b[0] = 2;
    match Point::parse(&b) {
        Err(e) => assert_eq!(e, Error::NotOnCurve),
        Ok(_) => panic!("off-curve point accepted"),
    }
}

#[test]
fn zero_buffer_is_no_public_key() {
    // The all-zero encoding names a small-order point: degenerate.
    let zero = [0u8; 32];
    match Point::parse_public_key(&zero) {
        Err(e) => assert_eq!(e, Error::IsIdentity),
        Ok(_) => panic!("zero buffer accepted"),
    }
}

#[test]
fn identity_is_no_public_key() {
    let mut ident = [0u8; 32];
    ident[0] = 1;
    let p = Point::parse(&ident).unwrap();
    assert!(p.is_identity());
    match Point::parse_public_key(&ident) {
        Err(e) => assert_eq!(e, Error::IsIdentity),
        Ok(_) => panic!("identity accepted"),
    }
}

#[test]
fn point_arithmetic_agrees_with_scalars() {
    let two_g = Point::mul_base(&Scalar::from_u64(2));
    let three_g = Point::mul_base(&Scalar::from_u64(3));
    let five_g = Point::mul_base(&Scalar::from_u64(5));
    assert!(two_g.add(&three_g) == five_g);
    assert!(five_g.sub(&three_g) == two_g);
    let six_g = Point::mul_base(&Scalar::from_u64(6));
    assert!(two_g.scalar_mul(&Scalar::from_u64(3)) == six_g);
}

#[test]
fn keypair_public_matches_base_mul() {
    let secret = Scalar::from_u64(7);
    let pair = KeyPair::from_secret(secret.duplicate());
    let expected = Point::mul_base(&secret);
    assert!(*pair.public() == expected);
    assert!(*pair.secret() == secret);
}

#[test]
fn random_keypair_valid() {
    let pair = KeyPair::random();
    let bytes = pair.public().to_bytes();
    assert!(Point::parse(&bytes).is_ok());
}
