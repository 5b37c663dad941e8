use vstd::prelude::*;

verus! {

/// A Rényi order was negative or NaN; nonnegative orders and positive infinity are valid.
#[derive(Clone, Copy, Debug, PartialEq, Eq)]
pub struct InvalidRenyiOrder;

impl InvalidRenyiOrder {
    /// The human-readable description of this error.
    pub fn message(&self) -> (r: String)
        ensures
            r@ == "Rényi order must be nonnegative and not NaN"@,
    {
        "Rényi order must be nonnegative and not NaN".to_string()
    }
}

/// The largest count of a byte table and the byte that holds it.
///
/// When several bytes share the largest count, the last of them (the highest
/// byte value) is chosen, so the choice is deterministic.
pub fn maximum_count(counts: &[usize; 256]) -> (r: (usize, usize))
    ensures
        r.0 < 256,
        r.1 == counts@[r.0 as int],
        forall|i: int| 0 <= i < 256 ==> #[trigger] counts@[i] <= r.1,
        forall|i: int| r.0 < i < 256 ==> #[trigger] counts@[i] < r.1,
{
    let mut index: usize = 0;
    let mut maximum: usize = counts[0];
    let mut i: usize = 1;
    while i < 256
        invariant
            1 <= i <= 256,
            index < i,
            counts@.len() == 256,
            maximum == counts@[index as int],
            forall|j: int| 0 <= j < i ==> #[trigger] counts@[j] <= maximum,
            forall|j: int| index < j < i ==> #[trigger] counts@[j] < maximum,
        decreases 256 - i,
    {
        if counts[i] >= maximum {
            index = i;
            maximum = counts[i];
        }
        i = i + 1;
    }
    (index, maximum)
}

} // verus!
