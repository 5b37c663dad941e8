use vstd::prelude::*;

use crate::transforms::{InvalidNgramLength, block_at, window_count};

verus! {

/// Lexicographic order on byte blocks of one common length: `a` comes before
/// `b` when, at the first position where they differ, `a` has the smaller byte.
pub open spec fn lex_lt(a: Seq<u8>, b: Seq<u8>) -> bool {
    exists|k: int| #[trigger] differs_first_at(a, b, k) && a[k] < b[k]
}

/// `a` and `b` agree before position `k`, and `k` lies within both.
pub open spec fn differs_first_at(a: Seq<u8>, b: Seq<u8>, k: int) -> bool {
    &&& 0 <= k < a.len()
    &&& k < b.len()
    &&& forall|j: int| 0 <= j < k ==> a[j] == b[j]
}

/// Number of block positions below `k` at which `block` occurs in `data`.
pub open spec fn occurrences_before(data: Seq<u8>, n: nat, block: Seq<u8>, k: int) -> nat
    decreases k,
{
    if k <= 0 {
        0
    } else {
        occurrences_before(data, n, block, k - 1) + (if block_at(data, n, k - 1) == block {
            1nat
        } else {
            0nat
        })
    }
}

/// Number of overlapping `n`-byte blocks of `data` equal to `block`.
pub open spec fn occurrences(data: Seq<u8>, n: nat, block: Seq<u8>) -> nat {
    occurrences_before(data, n, block, window_count(data.len(), n) as int)
}

/// Sum of the counts of a table of `(block, count)` entries.
pub open spec fn entry_total(entries: Seq<(Seq<u8>, usize)>) -> nat
    decreases entries.len(),
{
    if entries.len() == 0 {
        0
    } else {
        entry_total(entries.drop_last()) + (entries.last().1 as nat)
    }
}

/// The count a table of entries gives `block`: the sum of the counts of the
/// entries whose key is `block` (zero when there is none).
pub open spec fn count_in(entries: Seq<(Seq<u8>, usize)>, block: Seq<u8>) -> nat
    decreases entries.len(),
{
    if entries.len() == 0 {
        0
    } else {
        count_in(entries.drop_last(), block) + (if entries.last().0 == block {
            entries.last().1 as nat
        } else {
            0nat
        })
    }
}

/// A count table for blocks of length `n`: every key has length `n`, every
/// count is positive, and keys are strictly increasing in lexicographic order.
pub open spec fn table_ok(entries: Seq<(Seq<u8>, usize)>, n: nat) -> bool {
    &&& forall|i: int| 0 <= i < entries.len() ==> (#[trigger] entries[i]).0.len() == n
    &&& forall|i: int| 0 <= i < entries.len() ==> (#[trigger] entries[i]).1 > 0
    &&& forall|i: int, j: int|
        0 <= i < j < entries.len() ==> lex_lt(#[trigger] entries[i].0, #[trigger] entries[j].0)
}

/// The model of a stored entry list: each borrowed key by its bytes.
pub open spec fn entries_view<'a>(entries: Seq<(&'a [u8], usize)>) -> Seq<(Seq<u8>, usize)> {
    entries.map_values(|e: (&'a [u8], usize)| (e.0@, e.1))
}

proof fn lemma_lex_transitive(a: Seq<u8>, b: Seq<u8>, c: Seq<u8>)
    requires
        lex_lt(a, b),
        lex_lt(b, c),
    ensures
        lex_lt(a, c),
{
    let k1 = choose|k: int| #[trigger] differs_first_at(a, b, k) && a[k] < b[k];
    let k2 = choose|k: int| #[trigger] differs_first_at(b, c, k) && b[k] < c[k];
    let k = if k1 < k2 {
        k1
    } else {
        k2
    };
    assert(differs_first_at(a, c, k));
}

pub(crate) proof fn lemma_lex_asymmetric(a: Seq<u8>, b: Seq<u8>)
    requires
        lex_lt(a, b),
    ensures
        !lex_lt(b, a),
        a != b,
{
    if lex_lt(b, a) {
        lemma_lex_transitive(a, b, a);
    }
}

proof fn lemma_count_in_absent(s: Seq<(Seq<u8>, usize)>, block: Seq<u8>)
    requires
        forall|j: int| 0 <= j < s.len() ==> (#[trigger] s[j]).0 != block,
    ensures
        count_in(s, block) == 0,
    decreases s.len(),
{
    if s.len() > 0 {
        lemma_count_in_absent(s.drop_last(), block);
    }
}

pub(crate) proof fn lemma_count_in_present(s: Seq<(Seq<u8>, usize)>, n: nat, idx: int)
    requires
        table_ok(s, n),
        0 <= idx < s.len(),
    ensures
        count_in(s, s[idx].0) == s[idx].1,
    decreases s.len(),
{
    let block = s[idx].0;
    let t = s.drop_last();
    if idx == s.len() - 1 {
        assert forall|j: int| 0 <= j < t.len() implies (#[trigger] t[j]).0 != block by {
            assert(lex_lt(s[j].0, s[idx].0));
            lemma_lex_asymmetric(s[j].0, s[idx].0);
        }
        lemma_count_in_absent(t, block);
    } else {
        assert(lex_lt(s[idx].0, s[s.len() - 1].0));
        lemma_lex_asymmetric(s[idx].0, s[s.len() - 1].0);
        assert(table_ok(t, n));
        lemma_count_in_present(t, n, idx);
    }
}

proof fn lemma_entry_le_total(s: Seq<(Seq<u8>, usize)>, idx: int)
    requires
        0 <= idx < s.len(),
    ensures
        s[idx].1 <= entry_total(s),
    decreases s.len(),
{
    if idx < s.len() - 1 {
        lemma_entry_le_total(s.drop_last(), idx);
    }
}

proof fn lemma_update_count(s: Seq<(Seq<u8>, usize)>, idx: int, c: usize, block: Seq<u8>)
    requires
        0 <= idx < s.len(),
    ensures
        count_in(s.update(idx, (s[idx].0, c)), block) + (if s[idx].0 == block {
            s[idx].1 as nat
        } else {
            0nat
        }) == count_in(s, block) + (if s[idx].0 == block {
            c as nat
        } else {
            0nat
        }),
        entry_total(s.update(idx, (s[idx].0, c))) + s[idx].1 == entry_total(s) + c,
    decreases s.len(),
{
    let t = s.update(idx, (s[idx].0, c));
    if idx == s.len() - 1 {
        assert(t.drop_last() =~= s.drop_last());
    } else {
        assert(t.drop_last() =~= s.drop_last().update(idx, (s[idx].0, c)));
        lemma_update_count(s.drop_last(), idx, c, block);
    }
}

proof fn lemma_insert_count(
    s: Seq<(Seq<u8>, usize)>,
    pos: int,
    e: (Seq<u8>, usize),
    block: Seq<u8>,
)
    requires
        0 <= pos <= s.len(),
    ensures
        count_in(s.insert(pos, e), block) == count_in(s, block) + (if e.0 == block {
            e.1 as nat
        } else {
            0nat
        }),
        entry_total(s.insert(pos, e)) == entry_total(s) + e.1,
    decreases s.len(),
{
    let t = s.insert(pos, e);
    if pos == s.len() {
        assert(t.drop_last() =~= s);
    } else {
        assert(t.drop_last() =~= s.drop_last().insert(pos, e));
        assert(t.last() == s.last());
        lemma_insert_count(s.drop_last(), pos, e, block);
    }
}

/// Relation of two blocks of one length, as found by `compare_blocks`.
enum BlockOrder {
    Less,
    Equal,
    Greater,
}

/// Compares two blocks of one length in lexicographic byte order.
fn compare_blocks(a: &[u8], b: &[u8]) -> (r: BlockOrder)
    requires
        a@.len() == b@.len(),
    ensures
        r is Less ==> lex_lt(a@, b@),
        r is Equal ==> a@ == b@,
        r is Greater ==> lex_lt(b@, a@),
{
    let len = a.len();
    let mut i: usize = 0;
    while i < len
        invariant
            i <= len,
            len == a@.len(),
            len == b@.len(),
            forall|j: int| 0 <= j < i ==> a@[j] == b@[j],
        decreases len - i,
    {
        if a[i] < b[i] {
            assert(differs_first_at(a@, b@, i as int));
            return BlockOrder::Less;
        }
        if a[i] > b[i] {
            assert(differs_first_at(b@, a@, i as int));
            return BlockOrder::Greater;
        }
        i = i + 1;
    }
    assert(a@ =~= b@);
    BlockOrder::Equal
}

/// Binary search for `block` among sorted entries whose keys have its length.
///
/// `Ok(i)` is the entry whose key is `block`; `Err(p)` is the position at
/// which `block` would keep the keys sorted.
fn find_block<'a>(entries: &Vec<(&'a [u8], usize)>, block: &[u8]) -> (r: Result<usize, usize>)
    requires
        table_ok(entries_view(entries@), block@.len()),
    ensures
        r matches Ok(i) ==> (i < entries@.len() && entries_view(entries@)[i as int].0 == block@),
        r matches Err(p) ==> {
            &&& p <= entries@.len()
            &&& forall|j: int|
                0 <= j < p ==> lex_lt(#[trigger] entries_view(entries@)[j].0, block@)
            &&& forall|j: int|
                p <= j < entries@.len() ==> lex_lt(block@, #[trigger] entries_view(entries@)[j].0)
        },
{
    let ghost ev = entries_view(entries@);
    let mut lo: usize = 0;
    let mut hi: usize = entries.len();
    while lo < hi
        invariant
            lo <= hi <= entries@.len(),
            ev == entries_view(entries@),
            ev.len() == entries@.len(),
            table_ok(ev, block@.len()),
            forall|j: int| 0 <= j < lo ==> lex_lt(#[trigger] ev[j].0, block@),
            forall|j: int| hi <= j < ev.len() ==> lex_lt(block@, #[trigger] ev[j].0),
        decreases hi - lo,
    {
        let mid = lo + (hi - lo) / 2;
        let key: &[u8] = entries[mid].0;
        assert(key@ == ev[mid as int].0);
        match compare_blocks(key, block) {
            BlockOrder::Less => {
                assert forall|j: int| 0 <= j < mid + 1 implies lex_lt(#[trigger] ev[j].0, block@) by {
                    if j < mid {
                        lemma_lex_transitive(ev[j].0, ev[mid as int].0, block@);
                    }
                }
                lo = mid + 1;
            },
            BlockOrder::Equal => {
                return Ok(mid);
            },
            BlockOrder::Greater => {
                assert forall|j: int| mid <= j < ev.len() implies lex_lt(block@, #[trigger] ev[j].0) by {
                    if j > mid {
                        lemma_lex_transitive(block@, ev[mid as int].0, ev[j].0);
                    }
                }
                hi = mid;
            },
        }
    }
    Err(lo)
}

/// Exact frequencies of observed overlapping byte blocks of one positive length.
///
/// Construct with `ngram_counts`. The model (`@`) is the list of
/// `(block, count)` entries in strictly increasing lexicographic order of block;
/// only observed blocks appear, each with a positive count, and the counts sum
/// to `total()`. Keys borrow the input and cannot outlive it.
#[derive(Debug, PartialEq, Eq)]
pub struct NgramCounts<'a> {
    n: usize,
    total: usize,
    entries: Vec<(&'a [u8], usize)>,
}

impl<'a> View for NgramCounts<'a> {
    type V = Seq<(Seq<u8>, usize)>;

    closed spec fn view(&self) -> Seq<(Seq<u8>, usize)> {
        entries_view(self.entries@)
    }
}

impl<'a> Clone for NgramCounts<'a> {
    fn clone(&self) -> (r: Self)
        ensures
            r@ == self@,
            r.block_len() == self.block_len(),
    {
        proof {
            use_type_invariant(self);
        }
        let mut entries: Vec<(&'a [u8], usize)> = Vec::new();
        let mut i: usize = 0;
        while i < self.entries.len()
            invariant
                i <= self.entries@.len(),
                entries@ =~= self.entries@.take(i as int),
            decreases self.entries@.len() - i,
        {
            entries.push(self.entries[i]);
            i = i + 1;
        }
        assert(entries@ =~= self.entries@);
        NgramCounts { n: self.n, total: self.total, entries }
    }
}

impl<'a> NgramCounts<'a> {
    #[verifier::type_invariant]
    spec fn consistent(&self) -> bool {
        &&& self.n >= 1
        &&& table_ok(entries_view(self.entries@), self.n as nat)
        &&& self.total == entry_total(entries_view(self.entries@))
    }

    /// The block length of this table.
    pub closed spec fn block_len(&self) -> nat {
        self.n as nat
    }

    /// Returns the requested positive block length in bytes, even for no blocks.
    pub fn ngram_len(&self) -> (r: usize)
        ensures
            r == self.block_len(),
            r >= 1,
    {
        proof {
            use_type_invariant(self);
        }
        self.n
    }

    /// Returns the exact number of block occurrences: the sum of all counts.
    pub fn total(&self) -> (r: usize)
        ensures
            r == entry_total(self@),
    {
        proof {
            use_type_invariant(self);
        }
        self.total
    }

    /// Returns whether there are no complete blocks.
    pub fn is_empty(&self) -> (r: bool)
        ensures
            r <==> entry_total(self@) == 0,
    {
        proof {
            use_type_invariant(self);
        }
        self.total == 0
    }

    /// Returns the number of distinct observed blocks.
    pub fn support_size(&self) -> (r: usize)
        ensures
            r == self@.len(),
    {
        self.entries.len()
    }

    /// Returns a block's count, or zero for absent blocks and wrong lengths.
    ///
    /// Looks the block up by binary search over the sorted keys.
    pub fn count(&self, block: &[u8]) -> (r: usize)
        ensures
            r == count_in(self@, block@),
            block@.len() != self.block_len() ==> r == 0,
    {
        proof {
            use_type_invariant(self);
        }
        let ghost ev = entries_view(self.entries@);
        if block.len() != self.n {
            proof {
                lemma_count_in_absent(ev, block@);
            }
            return 0;
        }
        match find_block(&self.entries, block) {
            Ok(i) => {
                proof {
                    lemma_count_in_present(ev, self.n as nat, i as int);
                }
                self.entries[i].1
            },
            Err(p) => {
                proof {
                    assert forall|j: int| 0 <= j < ev.len() implies (#[trigger] ev[j]).0 != block@ by {
                        if j < p {
                            lemma_lex_asymmetric(ev[j].0, block@);
                        } else {
                            lemma_lex_asymmetric(block@, ev[j].0);
                        }
                    }
                    lemma_count_in_absent(ev, block@);
                }
                0
            },
        }
    }

    /// Borrows the `(block, count)` pairs in lexicographic byte order.
    ///
    /// Lists only observed blocks; each block borrows the original input.
    pub fn counts(&self) -> (r: &[(&'a [u8], usize)])
        ensures
            entries_view(r@) == self@,
            table_ok(self@, self.block_len()),
            entry_total(self@) <= usize::MAX,
    {
        proof {
            use_type_invariant(self);
        }
        self.entries.as_slice()
    }
}

/// Counts every overlapping `n`-byte block of `data`, borrowing keys from it.
///
/// The table lists each block that occurs, with its exact number of
/// occurrences, in lexicographic order; the counts sum to the number of
/// blocks. Empty input or `n > data.len()` yields an empty table.
/// Returns `InvalidNgramLength` exactly when `n == 0`.
pub fn ngram_counts<'a>(data: &'a [u8], n: usize) -> (r: Result<NgramCounts<'a>, InvalidNgramLength>)
    ensures
        r is Err <==> n == 0,
        r matches Ok(c) ==> {
            &&& c.block_len() == n
            &&& entry_total(c@) == window_count(data@.len(), n as nat)
            &&& entry_total(c@) == (if n <= data@.len() {
                data@.len() - n + 1
            } else {
                0
            })
            &&& forall|block: Seq<u8>| #[trigger] count_in(c@, block) == occurrences(data@, n as nat, block)
            &&& table_ok(c@, n as nat)
        },
{
    if n == 0 {
        return Err(InvalidNgramLength);
    }
    let len = data.len();
    let m = if n <= len {
        len - n + 1
    } else {
        0
    };
    let mut entries: Vec<(&'a [u8], usize)> = Vec::new();
    let mut i: usize = 0;
    while i < m
        invariant
            i <= m,
            n >= 1,
            len == data@.len(),
            m == window_count(data@.len(), n as nat),
            table_ok(entries_view(entries@), n as nat),
            entry_total(entries_view(entries@)) == i,
            forall|block: Seq<u8>| #[trigger] count_in(entries_view(entries@), block)
                == occurrences_before(data@, n as nat, block, i as int),
        decreases m - i,
    {
        let block: &'a [u8] = &data[i..i + n];
        let ghost ev = entries_view(entries@);
        match find_block(&entries, block) {
            Ok(idx) => {
                let key = entries[idx].0;
                let c = entries[idx].1;
                proof {
                    lemma_entry_le_total(ev, idx as int);
                }
                entries[idx] = (key, c + 1);
                proof {
                    assert(entries_view(entries@) =~= ev.update(idx as int, (ev[idx as int].0, (c + 1) as usize)));
                    assert forall|b: Seq<u8>| #[trigger] count_in(entries_view(entries@), b)
                        == occurrences_before(data@, n as nat, b, i + 1) by {
                        lemma_update_count(ev, idx as int, (c + 1) as usize, b);
                    }
                    lemma_update_count(ev, idx as int, (c + 1) as usize, block@);
                }
            },
            Err(pos) => {
                entries.insert(pos, (block, 1));
                proof {
                    let e = (block@, 1usize);
                    assert(entries_view(entries@) =~= ev.insert(pos as int, e));
                    ev.insert_ensures(pos as int, e);
                    let nv = ev.insert(pos as int, e);
                    assert forall|a: int, b: int| 0 <= a < b < nv.len() implies lex_lt(
                        #[trigger] nv[a].0,
                        #[trigger] nv[b].0,
                    ) by {
                        if b < pos {
                        } else if b == pos {
                        } else if a < pos {
                            assert(nv[b] == ev[b - 1]);
                        } else if a == pos {
                            assert(nv[b] == ev[b - 1]);
                        } else {
                            assert(nv[a] == ev[a - 1]);
                            assert(nv[b] == ev[b - 1]);
                        }
                    }
                    assert forall|k: int| 0 <= k < nv.len() implies (#[trigger] nv[k]).0.len() == n
                        && nv[k].1 > 0 by {
                        if k > pos {
                            assert(nv[k] == ev[k - 1]);
                        }
                    }
                    assert forall|b: Seq<u8>| #[trigger] count_in(entries_view(entries@), b)
                        == occurrences_before(data@, n as nat, b, i + 1) by {
                        lemma_insert_count(ev, pos as int, e, b);
                    }
                    lemma_insert_count(ev, pos as int, e, block@);
                }
            },
        }
        i = i + 1;
    }
    Ok(NgramCounts { n, total: m, entries })
}

/// An empirical distribution over observed overlapping byte blocks.
///
/// Retains the exact `NgramCounts`; the probability of a block is its count
/// divided by the sample size, which counts block occurrences, not input
/// bytes. An empty table is an explicit empty empirical state.
#[derive(Clone, Debug, PartialEq, Eq)]
pub struct NgramDistribution<'a> {
    counts: NgramCounts<'a>,
}

impl<'a> View for NgramDistribution<'a> {
    type V = Seq<(Seq<u8>, usize)>;

    closed spec fn view(&self) -> Seq<(Seq<u8>, usize)> {
        self.counts@
    }
}

impl<'a> NgramDistribution<'a> {
    /// The block length of the underlying counts.
    pub closed spec fn block_len(&self) -> nat {
        self.counts.block_len()
    }

    /// Takes ownership of exact counts without recounting.
    pub fn from_counts(counts: NgramCounts<'a>) -> (d: Self)
        ensures
            d@ == counts@,
            d.block_len() == counts.block_len(),
    {
        NgramDistribution { counts }
    }

    /// Borrows the underlying exact counts and block total.
    pub fn counts(&self) -> (r: &NgramCounts<'a>)
        ensures
            r@ == self@,
            r.block_len() == self.block_len(),
    {
        &self.counts
    }

    /// Returns the positive block length in bytes, even for an empty state.
    pub fn ngram_len(&self) -> (r: usize)
        ensures
            r == self.block_len(),
            r >= 1,
    {
        self.counts.ngram_len()
    }

    /// Returns the number of observed block occurrences, not input bytes.
    pub fn sample_size(&self) -> (r: usize)
        ensures
            r == entry_total(self@),
    {
        self.counts.total()
    }

    /// Returns whether this is an empty empirical state.
    pub fn is_empty(&self) -> (r: bool)
        ensures
            r <==> entry_total(self@) == 0,
    {
        self.counts.is_empty()
    }

    /// Returns the number of distinct observed blocks.
    pub fn support_size(&self) -> (r: usize)
        ensures
            r == self@.len(),
    {
        self.counts.support_size()
    }
}

/// Counts overlapping byte blocks once and returns their empirical distribution.
///
/// Same table as `ngram_counts`; returns `InvalidNgramLength` exactly when
/// `n == 0`, even for empty input.
pub fn ngram_probabilities<'a>(data: &'a [u8], n: usize) -> (r: Result<
    NgramDistribution<'a>,
    InvalidNgramLength,
>)
    ensures
        r is Err <==> n == 0,
        r matches Ok(d) ==> {
            &&& d.block_len() == n
            &&& entry_total(d@) == window_count(data@.len(), n as nat)
            &&& entry_total(d@) == (if n <= data@.len() {
                data@.len() - n + 1
            } else {
                0
            })
            &&& forall|block: Seq<u8>| #[trigger] count_in(d@, block) == occurrences(data@, n as nat, block)
            &&& table_ok(d@, n as nat)
        },
{
    match ngram_counts(data, n) {
        Ok(c) => Ok(NgramDistribution::from_counts(c)),
        Err(e) => Err(e),
    }
}

} // verus!
