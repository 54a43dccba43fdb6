//! The error a routing operation fails with: a reason in words.
use vstd::prelude::*;

verus! {

/// A routing failure and its reason.
#[derive(Debug, Clone)]
pub struct RoutingError {
    reason: String,
}

impl RoutingError {
    /// The reason given for the failure.
    pub closed spec fn spec_reason(&self) -> Seq<char> {
        self.reason@
    }

    /// A failure for the given reason.
    pub fn new(reason: &str) -> (e: Self)
        ensures
            e.spec_reason() == reason@,
    {
        RoutingError { reason: reason.to_owned() }
    }

    /// The failure's text, as it is displayed: the reason itself.
    pub fn message(&self) -> (text: String)
        ensures
            text@ == self.spec_reason(),
    {
        self.reason.clone()
    }
}

impl std::str::FromStr for RoutingError {
    type Err = std::convert::Infallible;

    fn from_str(reason: &str) -> (r: Result<Self, Self::Err>)
        ensures
            r matches Ok(e) && e.spec_reason() == reason@,
    {
        Ok(RoutingError { reason: reason.to_owned() })
    }
}

} // verus!
