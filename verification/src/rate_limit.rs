//! What a rate limiter reports.
use vstd::prelude::*;

verus! {

/// Why an operation was held back.
#[derive(Debug, Clone, Copy, PartialEq, Eq, Structural)]
pub enum RateLimitError {
    /// Blocked by the rate.
    RateLimited,
    /// The limiter is at capacity.
    AtCapacity,
}

impl RateLimitError {
    /// The error for people.
    pub fn message(self) -> (r: &'static str)
        ensures
            r@ == (match self {
                RateLimitError::RateLimited => "Rate limited"@,
                RateLimitError::AtCapacity => "At capacity"@,
            }),
    {
        match self {
            RateLimitError::RateLimited => "Rate limited",
            RateLimitError::AtCapacity => "At capacity",
        }
    }
}

} // verus!
