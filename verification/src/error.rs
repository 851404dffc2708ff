//! Error model for the query client: address conversion, transport faults,
//! and structural decode failures.

use vstd::prelude::*;

verus! {

/// The structural reason a status payload could not be decoded.
#[derive(Debug, Clone, Copy, PartialEq, Eq)]
pub enum DecodeFault {
    /// The payload has no newline separating the header from the body.
    MissingHeaderSeparator,
    /// The body has no newline separating the variables from the players.
    MissingBodySeparator,
}

/// Every failure the query client can report.
#[derive(Debug, Clone, PartialEq, Eq)]
pub enum QueryError {
    /// A textual address could not be converted to an IP address.
    InvalidAddress,
    /// Binding, connecting, sending or receiving on the socket failed; the
    /// message describes the failing step.
    TransportError(String),
    /// The reply payload is structurally malformed.
    MalformedResponse(DecodeFault),
    /// A channel build was attempted without both address and port present.
    IncompleteConfiguration,
}

} // verus!
