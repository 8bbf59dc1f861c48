//! Error taxonomy of the search core.

use vstd::prelude::*;

verus! {

/// Everything that can go wrong between receiving a raw search string
/// and returning a ranked result set.
#[derive(Debug, Clone, Copy, PartialEq, Eq, Structural)]
pub enum SearchError {
    /// Raw search text failed character-class validation. A client
    /// error: the request is rejected before any query is issued.
    RejectedInput,
    /// A store row's identifier could not be decoded. A server-side
    /// data-integrity fault: the store should never produce this.
    MalformedIdentifier,
    /// The candidate fetch itself failed; no partial ranking is done.
    SourceUnavailable,
}

impl SearchError {
    /// A short stable label for logging at the boundary.
    pub fn label(&self) -> (r: &'static str)
        ensures
            r@ == match *self {
                SearchError::RejectedInput => "rejected input"@,
                SearchError::MalformedIdentifier => "malformed identifier"@,
                SearchError::SourceUnavailable => "source unavailable"@,
            },
    {
        match self {
            SearchError::RejectedInput => "rejected input",
            SearchError::MalformedIdentifier => "malformed identifier",
            SearchError::SourceUnavailable => "source unavailable",
        }
    }

    /// Whether the condition is the client's fault (bad request shape)
    /// rather than a server-side fault.
    pub fn is_client_error(&self) -> (r: bool)
        ensures
            r == (*self == SearchError::RejectedInput),
    {
        match self {
            SearchError::RejectedInput => true,
            _ => false,
        }
    }
}

} // verus!
