//! Error aggregation layer: one tagged union over the errors of every
//! component, plus the opaque errors of the network and transaction
//! collaborators that this core only wraps and forwards.
//!
//! Each conversion into [`Error`] is total and injective: the wrapped value
//! is moved into its variant unchanged, so a caller several layers up can
//! still match on the original cause.

use vstd::prelude::*;
use crate::amount::ParsingError;
use crate::address;
use crate::key;
use crate::ringct;

verus! {

/// Error surface of the network collaborator, consumed here opaquely.
#[derive(Debug, Clone, Copy, PartialEq, Eq, Structural)]
pub enum NetworkError {
    /// The magic byte does not match any known network.
    InvalidMagicByte,
}

/// Error surface of the transaction collaborator, consumed here opaquely.
#[derive(Debug, Clone, Copy, PartialEq, Eq, Structural)]
pub enum TransactionError {
    /// The transaction data does not follow the expected layout.
    InvalidFormat,
}

/// A general error code; the other error types convert into this one.
#[derive(Debug, PartialEq, Eq, Structural)]
pub enum Error {
    /// Network error.
    Network(NetworkError),
    /// Address error.
    Address(address::Error),
    /// Key error.
    Key(key::Error),
    /// RingCt error.
    RingCt(ringct::Error),
    /// Transaction error.
    Transaction(TransactionError),
    /// Amount parsing error.
    AmountParsing(ParsingError),
}

impl From<NetworkError> for Error {
    fn from(err: NetworkError) -> (r: Self) {
        Error::Network(err)
    }
}

impl vstd::std_specs::convert::FromSpecImpl<NetworkError> for Error {
    open spec fn obeys_from_spec() -> bool {
        true
    }

    open spec fn from_spec(err: NetworkError) -> Self {
        Error::Network(err)
    }
}

impl From<address::Error> for Error {
    fn from(err: address::Error) -> (r: Self) {
        Error::Address(err)
    }
}

impl vstd::std_specs::convert::FromSpecImpl<address::Error> for Error {
    open spec fn obeys_from_spec() -> bool {
        true
    }

    open spec fn from_spec(err: address::Error) -> Self {
        Error::Address(err)
    }
}

impl From<key::Error> for Error {
    fn from(err: key::Error) -> (r: Self) {
        Error::Key(err)
    }
}

impl vstd::std_specs::convert::FromSpecImpl<key::Error> for Error {
    open spec fn obeys_from_spec() -> bool {
        true
    }

    open spec fn from_spec(err: key::Error) -> Self {
        Error::Key(err)
    }
}

impl From<ringct::Error> for Error {
    fn from(err: ringct::Error) -> (r: Self) {
        Error::RingCt(err)
    }
}

impl vstd::std_specs::convert::FromSpecImpl<ringct::Error> for Error {
    open spec fn obeys_from_spec() -> bool {
        true
    }

    open spec fn from_spec(err: ringct::Error) -> Self {
        Error::RingCt(err)
    }
}

impl From<TransactionError> for Error {
    fn from(err: TransactionError) -> (r: Self) {
        Error::Transaction(err)
    }
}

impl vstd::std_specs::convert::FromSpecImpl<TransactionError> for Error {
    open spec fn obeys_from_spec() -> bool {
        true
    }

    open spec fn from_spec(err: TransactionError) -> Self {
        Error::Transaction(err)
    }
}

impl From<ParsingError> for Error {
    fn from(err: ParsingError) -> (r: Self) {
        Error::AmountParsing(err)
    }
}

impl vstd::std_specs::convert::FromSpecImpl<ParsingError> for Error {
    open spec fn obeys_from_spec() -> bool {
        true
    }

    open spec fn from_spec(err: ParsingError) -> Self {
        Error::AmountParsing(err)
    }
}

} // verus!
