use vstd::prelude::*;

verus! {

/// A logarithm base that is not finite and strictly greater than one.
///
/// Entropy units require an increasing logarithm. Zero, one, bases below one,
/// NaN, and infinities are rejected, even for empty input.
#[derive(Clone, Copy, Debug, PartialEq, Eq)]
pub struct InvalidLogBase;

impl InvalidLogBase {
    /// The human-readable description of this error.
    pub fn message(&self) -> (r: String)
        ensures
            r@ == "logarithm base must be finite and greater than one"@,
    {
        "logarithm base must be finite and greater than one".to_string()
    }
}

} // verus!
