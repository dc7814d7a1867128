use monero_core::address::base58_decode;
use monero_core::address::base58_encode;
use monero_core::address::Address;
use monero_core::address::AddressType;
use monero_core::address::Error;
use monero_core::address::Network;
use monero_core::address::PaymentId;
use monero_core::key::Point;
use monero_core::key::Scalar;

fn sample_keys() -> (Point, Point) {
    (Point::mul_base(&Scalar::from_u64(11)), Point::mul_base(&Scalar::from_u64(13)))
}

#[test]
fn base58_partial_block_widths() {
    assert_eq!(base58_encode(&vec![0u8]), "11");
    assert_eq!(base58_decode("11").unwrap(), vec![0u8]);
    assert_eq!(base58_encode(&vec![]), "");
    assert_eq!(base58_decode("").unwrap(), Vec::<u8>::new());
}

#[test]
fn base58_round_trip_bytes() {
    let data: Vec<u8> = (0u8..69).collect();
    let text = base58_encode(&data);
    assert_eq!(base58_decode(&text).unwrap(), data);
}

#[test]
fn base58_rejects_foreign_characters() {
    assert_eq!(base58_decode("0l").unwrap_err(), Error::MalformedBase58);
    // A single character fits no block layout.
    assert_eq!(base58_decode("1").unwrap_err(), Error::MalformedBase58);
    // An all-`z` full block exceeds the 8-byte range.
    assert_eq!(base58_decode("zzzzzzzzzzz").unwrap_err(), Error::MalformedBase58);
}

#[test]
fn standard_address_round_trip() {
    let (spend, view) = sample_keys();
    let a = Address::standard(Network::Mainnet, spend, view);
    let text = a.encode();
    assert_eq!(text.len(), 95);
    let b = Address::decode(&text).unwrap();
    assert!(b.network == Network::Mainnet);
    assert!(matches!(b.addr_type, AddressType::Standard));
    assert_eq!(b.public_spend.to_bytes(), a.public_spend.to_bytes());
    assert_eq!(b.public_view.to_bytes(), a.public_view.to_bytes());
    assert_eq!(b.encode(), text);
}

#[test]
fn integrated_address_round_trip() {
    let (spend, view) = sample_keys();
    let id = PaymentId { bytes: vec![1, 2, 3, 4, 5, 6, 7, 8] };
    let a = Address::integrated(Network::Mainnet, spend, view, id);
    let text = a.encode();
    assert_eq!(text.len(), 106);
    let b = Address::decode(&text).unwrap();
    match b.addr_type {
        AddressType::Integrated(ref pid) => assert_eq!(pid.bytes, vec![1, 2, 3, 4, 5, 6, 7, 8]),
        _ => panic!("expected an integrated address"),
    }
    assert_eq!(b.encode(), text);
}

#[test]
fn subaddress_round_trip_testnet() {
    let (spend, view) = sample_keys();
    let a = Address::subaddress(Network::Testnet, spend, view);
    let text = a.encode();
    let b = Address::decode(&text).unwrap();
    assert!(b.network == Network::Testnet);
    assert!(matches!(b.addr_type, AddressType::SubAddress));
    assert_eq!(b.encode(), text);
}

#[test]
fn stagenet_round_trip() {
    let (spend, view) = sample_keys();
    let a = Address::standard(Network::Stagenet, spend, view);
    let b = Address::decode(&a.encode()).unwrap();
    assert!(b.network == Network::Stagenet);
}

#[test]
fn known_mainnet_address_decodes() {
    // The Monero project's published donation address.
    let text = "44AFFq5kSiGBoZ4NMDwYtN18obc8AemS33DBLWs3H7otXft3XjrpDtQGv7SqSsaBYBb98uNbr2VBBEt7f2wfn3RVGQBEP3A";
    let a = Address::decode(text).unwrap();
    assert!(a.network == Network::Mainnet);
    assert!(matches!(a.addr_type, AddressType::Standard));
    assert_eq!(a.encode(), text);
}

#[test]
fn corrupting_any_character_fails_decode() {
    let (spend, view) = sample_keys();
    let a = Address::standard(Network::Mainnet, spend, view);
    let text = a.encode();
    let chars: Vec<char> = text.chars().collect();
    for i in 0..chars.len() {
        let mut corrupted = chars.clone();
        corrupted[i] = if corrupted[i] == '2' { '3' } else { '2' };
        let s: String = corrupted.into_iter().collect();
        assert!(Address::decode(&s).is_err(), "position {} decoded", i);
    }
}

#[test]
fn corrupted_checksum_is_a_checksum_mismatch() {
    let (spend, view) = sample_keys();
    let a = Address::standard(Network::Mainnet, spend, view);
    let text = a.encode();
    // The last character only feeds the checksum bytes.
    let mut chars: Vec<char> = text.chars().collect();
    let last = chars.len() - 1;
    chars[last] = if chars[last] == '2' { '3' } else { '2' };
    let s: String = chars.into_iter().collect();
    match Address::decode(&s) {
        Err(e) => assert_eq!(e, Error::ChecksumMismatch),
        Ok(_) => panic!("corrupted address decoded"),
    }
}

#[test]
fn unknown_tag_is_rejected() {
    // A payload with an unknown tag byte, correctly checksummed.
    let mut payload = vec![99u8];
    let g = Point::mul_base(&Scalar::from_u64(11)).to_bytes();
    let v = Point::mul_base(&Scalar::from_u64(13)).to_bytes();
    payload.extend_from_slice(&g);
    payload.extend_from_slice(&v);
    let digest = <sha3::Keccak256 as sha3::Digest>::digest(&payload);
    payload.extend_from_slice(&digest[0..4]);
    let text = base58_encode(&payload);
    match Address::decode(&text) {
        Err(e) => assert_eq!(e, Error::UnknownTag),
        Ok(_) => panic!("unknown tag accepted"),
    }
}

#[test]
fn wrong_length_is_rejected() {
    let data = vec![5u8; 10];
    let text = base58_encode(&data);
    match Address::decode(&text) {
        Err(e) => assert_eq!(e, Error::WrongLength),
        Ok(_) => panic!("wrong length accepted"),
    }
}
