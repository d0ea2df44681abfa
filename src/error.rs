use vstd::prelude::*;

verus! {

/// Relies on `std::io::Error` only as a value carried inside `KvsError`.
#[verifier::external_type_specification]
#[verifier::external_body]
pub struct ExIoError(std::io::Error);

/// Relies on `serde_json::Error` only as a value carried inside `KvsError`.
#[verifier::external_type_specification]
#[verifier::external_body]
pub struct ExJsonError(serde_json::Error);

/// Errors of the store.
#[derive(Debug)]
pub enum KvsError {
    /// A file or stream operation failed.
    IoError(std::io::Error),
    /// A record could not be encoded or decoded.
    SerdeError(serde_json::Error),
    /// `remove` was asked for a key that the store does not hold.
    KeyNotFound,
    /// The index points at a record that is not a `Set`: index and log disagree.
    UnexpectedCommandType,
}

impl From<std::io::Error> for KvsError {
    fn from(error: std::io::Error) -> (r: Self)
        ensures
            r == KvsError::IoError(error),
    {
        KvsError::IoError(error)
    }
}

impl vstd::std_specs::convert::FromSpecImpl<std::io::Error> for KvsError {
    open spec fn obeys_from_spec() -> bool {
        true
    }

    open spec fn from_spec(v: std::io::Error) -> Self {
        KvsError::IoError(v)
    }
}

impl From<serde_json::Error> for KvsError {
    fn from(error: serde_json::Error) -> (r: Self)
        ensures
            r == KvsError::SerdeError(error),
    {
        KvsError::SerdeError(error)
    }
}

impl vstd::std_specs::convert::FromSpecImpl<serde_json::Error> for KvsError {
    open spec fn obeys_from_spec() -> bool {
        true
    }

    open spec fn from_spec(v: serde_json::Error) -> Self {
        KvsError::SerdeError(v)
    }
}

} // verus!
