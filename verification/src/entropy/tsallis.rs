use vstd::prelude::*;

verus! {

/// A Tsallis order was negative or nonfinite; finite nonnegative orders are valid.
#[derive(Clone, Copy, Debug, PartialEq, Eq)]
pub struct InvalidTsallisOrder;

impl InvalidTsallisOrder {
    /// The human-readable description of this error.
    pub fn message(&self) -> (r: String)
        ensures
            r@ == "Tsallis order must be finite and nonnegative"@,
    {
        "Tsallis order must be finite and nonnegative".to_string()
    }
}

} // verus!
