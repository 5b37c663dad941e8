use vstd::prelude::*;

use super::counts::{ByteHistogram, byte_count, sum_counts, support_of};

verus! {

/// A reusable empirical byte distribution backed by exact counts.
///
/// For a nonempty sample the probability of byte `b` is `count[b] / sample_size`;
/// an empty sample is an explicit empty empirical state. The model (`@`) is the
/// table of 256 exact counts; only validated integer counts can enter.
#[derive(Clone, Debug, PartialEq, Eq)]
pub struct Distribution {
    histogram: ByteHistogram,
}

impl View for Distribution {
    type V = Seq<usize>;

    closed spec fn view(&self) -> Seq<usize> {
        self.histogram@
    }
}

impl Distribution {
    /// Counts a byte slice once, with fixed storage.
    ///
    /// Same counts as `Distribution::from_counts(ByteHistogram::from_bytes(data))`.
    pub fn from_bytes(data: &[u8]) -> (d: Self)
        ensures
            d@.len() == 256,
            forall|b: u8| #[trigger] d@[b as int] == byte_count(data@, b),
            sum_counts(d@) == data@.len(),
    {
        Self::from_counts(ByteHistogram::from_bytes(data))
    }

    /// Takes ownership of a validated histogram without recounting the input.
    pub fn from_counts(histogram: ByteHistogram) -> (d: Self)
        ensures
            d@ == histogram@,
    {
        Distribution { histogram }
    }

    /// Borrows the underlying exact counts and total.
    pub fn histogram(&self) -> (r: &ByteHistogram)
        ensures
            r@ == self@,
    {
        &self.histogram
    }

    /// Returns the sample size (the sum of all counts), distinct from support size.
    pub fn sample_size(&self) -> (r: usize)
        ensures
            r == sum_counts(self@),
    {
        self.histogram.total()
    }

    /// Returns whether this is the empty empirical state.
    pub fn is_empty(&self) -> (r: bool)
        ensures
            r <==> sum_counts(self@) == 0,
    {
        self.histogram.is_empty()
    }

    /// Returns the number of positive counts.
    pub fn support_size(&self) -> (r: usize)
        ensures
            r == support_of(self@),
            r <= 256,
            r <= sum_counts(self@),
            r == 0 <==> sum_counts(self@) == 0,
    {
        self.histogram.support_size()
    }
}

} // verus!
