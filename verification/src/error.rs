//! What can go wrong.

use vstd::prelude::*;

verus! {

/// The error of a JSON reader of `serde_json`.
#[verifier::external_type_specification]
#[verifier::external_body]
pub struct ExJsonError(serde_json::Error);

/// The error of an HTTP request of `reqwest`.
#[verifier::external_type_specification]
#[verifier::external_body]
pub struct ExRequestError(reqwest::Error);

/// Errors of the parse and fetch layers.
#[derive(Debug)]
pub enum CtError {
    /// The body was not a crt.sh response: a JSON array of rows.
    Parse(serde_json::Error),
    /// The request failed at the transport layer: DNS, TCP, TLS, or the time
    /// limit.
    Transport(reqwest::Error),
    /// crt.sh answered with this status, which is not one of success.
    BadStatus(u16),
    /// The response went over the byte cap, and was not buffered any further.
    ResponseTooLarge {
        /// The byte cap.
        limit: usize,
        /// The size that was reached when the cap was passed.
        got: usize,
    },
}

impl From<serde_json::Error> for CtError {
    fn from(e: serde_json::Error) -> (r: CtError) {
        CtError::Parse(e)
    }
}

impl vstd::std_specs::convert::FromSpecImpl<serde_json::Error> for CtError {
    open spec fn obeys_from_spec() -> bool {
        true
    }

    open spec fn from_spec(e: serde_json::Error) -> CtError {
        CtError::Parse(e)
    }
}

impl From<reqwest::Error> for CtError {
    fn from(e: reqwest::Error) -> (r: CtError) {
        CtError::Transport(e)
    }
}

impl vstd::std_specs::convert::FromSpecImpl<reqwest::Error> for CtError {
    open spec fn obeys_from_spec() -> bool {
        true
    }

    open spec fn from_spec(e: reqwest::Error) -> CtError {
        CtError::Transport(e)
    }
}

} // verus!
