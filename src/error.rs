use vstd::prelude::*;

verus! {

/// Errors of session setup.
#[derive(Debug, Clone, Copy, PartialEq, Eq, Structural)]
pub enum SabiError {
    NoSocketAddr,
}

impl SabiError {
    /// What went wrong, in words.
    pub fn message(&self) -> (r: &'static str)
        ensures
            *self == SabiError::NoSocketAddr ==> r@ == "no socket addr found"@,
    {
        match self {
            SabiError::NoSocketAddr => "no socket addr found",
        }
    }
}

} // verus!
