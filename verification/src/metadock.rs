use vstd::prelude::*;

use crate::cache::ProviderOutcome;

verus! {

// The address-label API's error model. The adapter performing the HTTP
// call parses a failure into these plain values; classifying them into the
// provider-agnostic outcome the cache's retry policy works on is this
// module's verified logic.

/// The error payload the label API returns in place of results.
pub struct MetadockResponseError {
    /// The API's numeric error code.
    pub code: u64,
    /// The API's message text.
    pub message: String,
}

/// What a label API call can fail with: an error response, or anything
/// else — a network failure, a payload that would not parse — carried as
/// text.
pub enum MetadockError {
    ResponseError(MetadockResponseError),
    Unknown(String),
}

/// The numeric code the label API signals a rate limit with.
pub const RATE_LIMIT_CODE: u64 = 40000000;

impl MetadockError {
    /// The provider-agnostic outcome class of this error: a rate-limit
    /// code asks for backoff and retry; any other error response is
    /// lasting; anything else is a passing failure. Either way the sweep
    /// treats the sub-batch as unresolved by this provider.
    pub fn classify(&self) -> (r: ProviderOutcome)
        ensures
            match self {
                MetadockError::ResponseError(e) => if e.code == RATE_LIMIT_CODE {
                    r is RateLimited
                } else {
                    r is Fatal
                },
                MetadockError::Unknown(_) => r is Transient,
            },
    {
        match self {
            MetadockError::ResponseError(e) => {
                if e.code == RATE_LIMIT_CODE {
                    ProviderOutcome::RateLimited
                } else {
                    ProviderOutcome::Fatal
                }
            },
            MetadockError::Unknown(_) => ProviderOutcome::Transient,
        }
    }
}

impl From<MetadockResponseError> for MetadockError {
    /// Wraps an error response.
    fn from(err: MetadockResponseError) -> (r: MetadockError) {
        MetadockError::ResponseError(err)
    }
}

impl vstd::std_specs::convert::FromSpecImpl<MetadockResponseError> for MetadockError {
    open spec fn obeys_from_spec() -> bool {
        true
    }

    open spec fn from_spec(err: MetadockResponseError) -> MetadockError {
        MetadockError::ResponseError(err)
    }
}

} // verus!
