use monero_core::address;
use monero_core::amount::ParsingError;
use monero_core::error::NetworkError;
use monero_core::error::TransactionError;
use monero_core::key;
use monero_core::ringct;
use monero_core::Error;

#[test]
fn conversions_keep_the_cause() {
    assert_eq!(Error::from(NetworkError::InvalidMagicByte), Error::Network(NetworkError::InvalidMagicByte));
    assert_eq!(
        Error::from(address::Error::ChecksumMismatch),
        Error::Address(address::Error::ChecksumMismatch)
    );
    assert_eq!(Error::from(key::Error::NotCanonical), Error::Key(key::Error::NotCanonical));
    assert_eq!(Error::from(ringct::Error::IsIdentity), Error::RingCt(ringct::Error::IsIdentity));
    assert_eq!(
        Error::from(TransactionError::InvalidFormat),
        Error::Transaction(TransactionError::InvalidFormat)
    );
    assert_eq!(
        Error::from(ParsingError::Overflow),
        Error::AmountParsing(ParsingError::Overflow)
    );
}

#[test]
fn equality_compares_variant_and_value() {
    assert_ne!(
        Error::AmountParsing(ParsingError::Overflow),
        Error::AmountParsing(ParsingError::InvalidCharacter)
    );
    assert_ne!(
        Error::Key(key::Error::NotCanonical),
        Error::Address(address::Error::ChecksumMismatch)
    );
}
