use vstd::prelude::*;

verus! {

/// Number of occurrences of `symbol` in `data`; order of the data plays no part.
pub open spec fn byte_count(data: Seq<u8>, symbol: u8) -> nat {
    data.to_multiset().count(symbol)
}

/// Sum of a table of counts, as a mathematical integer.
pub open spec fn sum_counts(counts: Seq<usize>) -> nat
    decreases counts.len(),
{
    if counts.len() == 0 {
        0
    } else {
        sum_counts(counts.drop_last()) + (counts.last() as nat)
    }
}

/// Number of strictly positive entries of a table of counts.
pub open spec fn support_of(counts: Seq<usize>) -> nat
    decreases counts.len(),
{
    if counts.len() == 0 {
        0
    } else {
        support_of(counts.drop_last()) + (if counts.last() > 0 { 1nat } else { 0nat })
    }
}

proof fn lemma_sum_take_step(s: Seq<usize>, i: int)
    requires
        0 <= i < s.len(),
    ensures
        sum_counts(s.take(i + 1)) == sum_counts(s.take(i)) + s[i],
        support_of(s.take(i + 1)) == support_of(s.take(i)) + (if s[i] > 0 { 1nat } else { 0nat }),
{
    assert(s.take(i + 1).drop_last() =~= s.take(i));
}

proof fn lemma_sum_take_le(s: Seq<usize>, i: int)
    requires
        0 <= i <= s.len(),
    ensures
        sum_counts(s.take(i)) <= sum_counts(s),
    decreases s.len() - i,
{
    if i == s.len() {
        assert(s.take(i) =~= s);
    } else {
        lemma_sum_take_step(s, i);
        lemma_sum_take_le(s, i + 1);
    }
}

proof fn lemma_sum_update(s: Seq<usize>, k: int, v: usize)
    requires
        0 <= k < s.len(),
    ensures
        sum_counts(s.update(k, v)) + s[k] == sum_counts(s) + v,
    decreases s.len(),
{
    let t = s.update(k, v);
    if k == s.len() - 1 {
        assert(t.drop_last() =~= s.drop_last());
    } else {
        assert(t.drop_last() =~= s.drop_last().update(k, v));
        lemma_sum_update(s.drop_last(), k, v);
    }
}

/// No single count exceeds the total of its table.
pub proof fn lemma_elem_le_sum(s: Seq<usize>, k: int)
    requires
        0 <= k < s.len(),
    ensures
        s[k] <= sum_counts(s),
    decreases s.len(),
{
    if k < s.len() - 1 {
        lemma_elem_le_sum(s.drop_last(), k);
    }
}

proof fn lemma_support_zero_iff_sum_zero(s: Seq<usize>)
    ensures
        (support_of(s) == 0) <==> (sum_counts(s) == 0),
        support_of(s) <= sum_counts(s),
    decreases s.len(),
{
    if s.len() > 0 {
        lemma_support_zero_iff_sum_zero(s.drop_last());
    }
}

/// Exact frequencies over the 256 byte values, with no heap allocation.
///
/// The model (`@`) is the table of 256 counts in ascending byte order. The
/// stored total always equals the sum of that table.
#[derive(Debug, PartialEq, Eq)]
pub struct ByteHistogram {
    counts: [usize; 256],
    total: usize,
}

/// The sum of an externally supplied count table exceeds `usize::MAX`.
#[derive(Clone, Copy, Debug, PartialEq, Eq)]
pub struct CountOverflow;

impl CountOverflow {
    /// The human-readable description of this error.
    pub fn message(&self) -> (r: String)
        ensures
            r@ == "byte count total exceeds usize::MAX"@,
    {
        "byte count total exceeds usize::MAX".to_string()
    }
}

impl View for ByteHistogram {
    type V = Seq<usize>;

    closed spec fn view(&self) -> Seq<usize> {
        self.counts@
    }
}

impl Clone for ByteHistogram {
    fn clone(&self) -> (r: Self)
        ensures
            r@ == self@,
    {
        proof {
            use_type_invariant(self);
        }
        ByteHistogram { counts: self.counts, total: self.total }
    }
}

impl ByteHistogram {
    #[verifier::type_invariant]
    spec fn total_is_sum(&self) -> bool {
        self.total == sum_counts(self.counts@)
    }

    /// Counts a byte slice in one pass, using fixed storage.
    ///
    /// Each count is bounded by `data.len()`, so counting cannot overflow.
    pub fn from_bytes(data: &[u8]) -> (h: Self)
        ensures
            h@.len() == 256,
            forall|b: u8| #[trigger] h@[b as int] == byte_count(data@, b),
            sum_counts(h@) == data@.len(),
    {
        let mut counts = [0usize; 256];
        let mut i: usize = 0;
        proof {
            broadcast use vstd::seq_lib::group_to_multiset_ensures;
            assert(data@.take(0) =~= Seq::<u8>::empty());
            assert forall|b: u8| #[trigger] counts@[b as int] == byte_count(data@.take(0), b) by {
                assert(!data@.take(0).contains(b));
            }
        }
        assert(sum_counts(counts@) == 0) by {
            assert forall|k: int| 0 <= k <= 256 implies sum_counts(#[trigger] counts@.take(k)) == 0 by {
                lemma_prefix_zero(counts@, k);
            }
            assert(counts@.take(256) =~= counts@);
        }
        while i < data.len()
            invariant
                i <= data.len(),
                counts@.len() == 256,
                forall|b: u8| #[trigger] counts@[b as int] == byte_count(data@.take(i as int), b),
                sum_counts(counts@) == i,
            decreases data.len() - i,
        {
            let byte = data[i];
            let k = byte as usize;
            proof {
                lemma_elem_le_sum(counts@, k as int);
                lemma_sum_update(counts@, k as int, (counts@[k as int] + 1) as usize);
                assert(data@.take(i + 1) =~= data@.take(i as int).push(byte));
                broadcast use vstd::seq_lib::group_to_multiset_ensures;
            }
            counts[k] = counts[k] + 1;
            i = i + 1;
            proof {
                assert forall|b: u8| #[trigger] counts@[b as int] == byte_count(data@.take(i as int), b) by {
                    broadcast use vstd::seq_lib::group_to_multiset_ensures;
                }
            }
        }
        assert(data@.take(data.len() as int) =~= data@);
        ByteHistogram { counts, total: data.len() }
    }

    /// Reuses a count table after checking its total.
    ///
    /// An all-zero table is valid and represents an empty sample. Returns
    /// `CountOverflow` exactly when the sum cannot be represented by `usize`.
    pub fn try_from_counts(counts: [usize; 256]) -> (r: Result<Self, CountOverflow>)
        ensures
            r is Ok <==> sum_counts(counts@) <= usize::MAX,
            r matches Ok(h) ==> h@ == counts@,
    {
        let mut total: usize = 0;
        let mut i: usize = 0;
        while i < 256
            invariant
                i <= 256,
                counts@.len() == 256,
                total == sum_counts(counts@.take(i as int)),
            decreases 256 - i,
        {
            proof {
                lemma_sum_take_step(counts@, i as int);
            }
            match total.checked_add(counts[i]) {
                Some(t) => {
                    total = t;
                },
                None => {
                    proof {
                        lemma_sum_take_le(counts@, i + 1);
                    }
                    return Err(CountOverflow);
                },
            }
            i = i + 1;
        }
        assert(counts@.take(256) =~= counts@);
        Ok(ByteHistogram { counts, total })
    }

    /// Returns the exact number of observations: the sum of all counts.
    pub fn total(&self) -> (r: usize)
        ensures
            r == sum_counts(self@),
    {
        proof {
            use_type_invariant(self);
        }
        self.total
    }

    /// Returns whether there are no observations.
    pub fn is_empty(&self) -> (r: bool)
        ensures
            r <==> sum_counts(self@) == 0,
    {
        proof {
            use_type_invariant(self);
        }
        self.total == 0
    }

    /// Returns the exact count for a byte, including zero for absent bytes.
    pub fn count(&self, symbol: u8) -> (r: usize)
        ensures
            r == self@[symbol as int],
            r <= sum_counts(self@),
    {
        proof {
            lemma_elem_le_sum(self.counts@, symbol as int);
        }
        self.counts[symbol as usize]
    }

    /// Borrows all 256 counts in ascending byte order.
    pub fn counts(&self) -> (r: &[usize; 256])
        ensures
            r@ == self@,
    {
        &self.counts
    }

    /// Counts observed symbols: the number of strictly positive counts.
    ///
    /// Returns zero exactly for an empty sample, and never exceeds the total.
    pub fn support_size(&self) -> (r: usize)
        ensures
            r == support_of(self@),
            r <= 256,
            r <= sum_counts(self@),
            r == 0 <==> sum_counts(self@) == 0,
    {
        let mut support: usize = 0;
        let mut i: usize = 0;
        while i < 256
            invariant
                i <= 256,
                self.counts@.len() == 256,
                support == support_of(self.counts@.take(i as int)),
                support <= i,
            decreases 256 - i,
        {
            proof {
                lemma_sum_take_step(self.counts@, i as int);
            }
            if self.counts[i] > 0 {
                support = support + 1;
            }
            i = i + 1;
        }
        proof {
            assert(self.counts@.take(256) =~= self.counts@);
            lemma_support_zero_iff_sum_zero(self.counts@);
        }
        support
    }
}

/// Counting discards order: two inputs that are rearrangements of each other
/// (equal as multisets) have the same count for every byte, so
/// `ByteHistogram::from_bytes` gives them equal histograms.
pub proof fn lemma_rearrangement_keeps_counts(a: Seq<u8>, b: Seq<u8>)
    requires
        a.to_multiset() =~= b.to_multiset(),
    ensures
        forall|symbol: u8| #[trigger] byte_count(a, symbol) == byte_count(b, symbol),
{
}

/// Reversing the input keeps every byte count.
pub proof fn lemma_reversal_keeps_counts(a: Seq<u8>)
    ensures
        forall|symbol: u8| #[trigger] byte_count(a.reverse(), symbol) == byte_count(a, symbol),
{
    a.lemma_reverse_to_multiset();
}

proof fn lemma_prefix_zero(s: Seq<usize>, k: int)
    requires
        0 <= k <= s.len(),
        forall|j: int| 0 <= j < s.len() ==> s[j] == 0,
    ensures
        sum_counts(s.take(k)) == 0,
    decreases k,
{
    if k > 0 {
        lemma_sum_take_step(s, k - 1);
        lemma_prefix_zero(s, k - 1);
    }
}

} // verus!
