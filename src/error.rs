use vstd::prelude::*;

verus! {

/// Failures of a file or stream operation.
#[verifier::external_type_specification]
#[verifier::external_body]
pub struct ExIoError(std::io::Error);

/// Failures of the JSON encoder or decoder.
#[verifier::external_type_specification]
#[verifier::external_body]
pub struct ExJsonError(serde_json::Error);

/// What the store's operations fail with.
#[derive(Debug)]
pub enum KvStoreError {
    /// A file-system or stream failure.
    Io(std::io::Error),
    /// A malformed record.
    Serde(serde_json::Error),
    /// `remove` of a key that is not present.
    KeyNotFound,
    /// The index pointed at a record that is not a `Set`.
    UnKnowCommandType,
}

impl From<std::io::Error> for KvStoreError {
    fn from(value: std::io::Error) -> (r: KvStoreError) {
        KvStoreError::Io(value)
    }
}

impl vstd::std_specs::convert::FromSpecImpl<std::io::Error> for KvStoreError {
    open spec fn obeys_from_spec() -> bool {
        true
    }

    open spec fn from_spec(v: std::io::Error) -> KvStoreError {
        KvStoreError::Io(v)
    }
}

impl From<serde_json::Error> for KvStoreError {
    fn from(value: serde_json::Error) -> (r: KvStoreError) {
        KvStoreError::Serde(value)
    }
}

impl vstd::std_specs::convert::FromSpecImpl<serde_json::Error> for KvStoreError {
    open spec fn obeys_from_spec() -> bool {
        true
    }

    open spec fn from_spec(v: serde_json::Error) -> KvStoreError {
        KvStoreError::Serde(v)
    }
}

pub type Result<T> = core::result::Result<T, KvStoreError>;

} // verus!
