//! The library's error type.
use vstd::prelude::*;

use bulletproofs::r1cs::R1CSError;

verus! {

#[verifier::external_type_specification]
#[verifier::external_body]
pub struct ExR1CSError(R1CSError);

#[verifier::external_type_specification]
#[verifier::external_body]
pub struct ExIoError(std::io::Error);

/// Standard error for the interface.
#[derive(Debug)]
pub enum Error {
    /// A failure of the bulletproofs constraint system.
    R1CS(R1CSError),
    /// An I/O failure, such as bytes that do not hold an encoding.
    Io(std::io::Error),
    /// A field operation or a malformed field encoding.
    Field(String),
    /// A transaction already holds the maximum number of notes.
    MaximumNotes,
    /// Any other failure: an unproven or unbalanced transaction, a proof that
    /// does not verify.
    Generic,
}

impl From<R1CSError> for Error {
    fn from(e: R1CSError) -> (r: Error) {
        Error::R1CS(e)
    }
}

impl vstd::std_specs::convert::FromSpecImpl<R1CSError> for Error {
    open spec fn obeys_from_spec() -> bool {
        true
    }

    open spec fn from_spec(v: R1CSError) -> Error {
        Error::R1CS(v)
    }
}

impl From<std::io::Error> for Error {
    fn from(e: std::io::Error) -> (r: Error) {
        Error::Io(e)
    }
}

impl vstd::std_specs::convert::FromSpecImpl<std::io::Error> for Error {
    open spec fn obeys_from_spec() -> bool {
        true
    }

    open spec fn from_spec(v: std::io::Error) -> Error {
        Error::Io(v)
    }
}

/// `std::io::Error::new` with the kind `InvalidData` and the given message.
/// Nothing is stated of the error it makes: it is carried, never read.
#[verifier::external_body]
pub(crate) fn invalid_data(msg: &str) -> std::io::Error {
    std::io::Error::new(std::io::ErrorKind::InvalidData, msg)
}

} // verus!
