//! What the errors of backends have in common.
use vstd::prelude::*;

verus! {

/// An error of a backend.
pub trait BackendError {
    /// Trying again may help.
    spec fn retryable(&self) -> bool;

    /// The name of the error.
    spec fn kind_name(&self) -> &'static str;

    /// Whether trying again may help.
    fn is_retryable(&self) -> (r: bool)
        ensures
            r == self.retryable(),
    ;

    /// The name of the error.
    fn kind(&self) -> (r: &'static str)
        ensures
            r@ == self.kind_name()@,
    ;

    /// Whether the caller was turned away for who they are; no, where a
    /// backend does not say.
    fn is_auth_failure(&self) -> (r: bool)
        default_ensures
            !r,
    {
        false
    }
}

} // verus!
