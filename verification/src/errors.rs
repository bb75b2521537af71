//! Error taxonomy of the relay core. Every error collapses to HTTP 500 at the
//! request boundary.

use vstd::prelude::*;

verus! {

/// Errors of the ETSI-facing frontend logic.
#[derive(Debug)]
pub enum EtsiServerError {
    /// No PQKD endpoint with the given SAE id is configured.
    UnknownPqkd(String),
    /// The planner produced no usable path.
    PathError,
    /// A peer relay rejected a transfer, or an envelope was malformed.
    SendKeysError,
    /// The local KME answered with the given non-OK status.
    PqkdRequestError(u16),
    /// The key store could not be read.
    GetKeysError,
}

impl EtsiServerError {
    /// Every frontend error surfaces to the SAE as HTTP 500.
    pub fn status_code(&self) -> (r: u16)
        ensures
            r == 500,
    {
        500
    }
}

/// Errors of the inter-relay frontend logic.
#[derive(Debug)]
pub enum RelayServerError {
    /// The key store for the target PQKD is missing or unreadable.
    AddKeyError,
    /// A duplicate arrival carried different material for the same
    /// `(source, key id)`.
    KeysDoNotMatch,
    /// The envelope path does not contain this relay where expected.
    GetKeysError,
}

impl RelayServerError {
    /// Every inter-relay error surfaces as HTTP 500.
    pub fn status_code(&self) -> (r: u16)
        ensures
            r == 500,
    {
        500
    }
}

} // verus!
