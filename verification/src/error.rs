//! The error taxonomy of the storage and query layers.
//!
//! Every recoverable failure is surfaced through [`Error`]; the variants keep
//! enough structure (stage, remote log text) for a caller to tell a
//! remotely-caused failure from a locally-caused one.

use vstd::prelude::*;

verus! {

/// The stage of a transaction broadcast at which a remote node reported a
/// non-zero status code.
#[derive(Debug, Clone, Copy, PartialEq, Eq, Structural)]
pub enum CallStage {
    /// The pre-execution admission check.
    Admission,
    /// The execution / delivery of the transaction.
    Delivery,
}

/// A failure of the verified remote-query protocol.
#[derive(Debug, Clone, PartialEq, Eq)]
pub enum QueryError {
    /// The remote node answered with a non-zero status code; the remote
    /// diagnostic log is carried verbatim.
    Status { code: u32, log: String },
    /// The response payload was too short to contain a 32-byte root hash.
    MalformedRoot,
    /// A verified mapping did not contain the reserved root entry under the
    /// empty key.
    MissingRoot,
}

/// A recoverable failure of the storage or query layers.
#[derive(Debug, Clone, PartialEq, Eq)]
pub enum Error {
    /// A storage backend failed.
    Store(String),
    /// A value could not be encoded (for keys: the encoding exceeded the
    /// fixed key buffer).
    Encode,
    /// Bytes could not be decoded as the requested type.
    Decode,
    /// A `BackingStore` held a different variant than the one required.
    Downcast(String),
    /// The remote-query protocol failed; see [`QueryError`].
    Query(QueryError),
    /// The proof-verification oracle rejected a proof.
    Verification(String),
    /// A transaction broadcast was rejected; the stage's remote log text is
    /// carried verbatim.
    Call { stage: CallStage, log: String },
}

impl Error {
    /// A human-readable description; the remote log text, where one was
    /// carried, is contained verbatim.
    pub fn message(&self) -> (r: String)
        ensures
            (match self {
                Error::Query(QueryError::Status { code: _, log }) => r@ == log@,
                Error::Call { stage: _, log } => r@ == log@,
                Error::Store(m) => r@ == m@,
                Error::Downcast(m) => r@ == m@,
                Error::Verification(m) => r@ == m@,
                _ => true,
            }),
    {
        match self {
            Error::Store(m) => m.clone(),
            Error::Encode => "value could not be encoded".to_owned(),
            Error::Decode => "bytes could not be decoded as the expected type".to_owned(),
            Error::Downcast(m) => m.clone(),
            Error::Query(QueryError::Status { code: _, log }) => log.clone(),
            Error::Query(QueryError::MalformedRoot) => "response payload too short to hold a root hash".to_owned(),
            Error::Query(QueryError::MissingRoot) => "verified mapping has no root entry".to_owned(),
            Error::Verification(m) => m.clone(),
            Error::Call { stage: _, log } => log.clone(),
        }
    }
}

} // verus!
