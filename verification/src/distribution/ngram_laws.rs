use vstd::prelude::*;

use super::counts::byte_count;
use super::ngrams::{
    count_in, entry_total, lemma_count_in_present, lemma_lex_asymmetric, lex_lt, occurrences,
    occurrences_before, table_ok,
};
use crate::transforms::{block_at, window_count};

verus! {

/// Number of positions `i` with `lo <= i < hi` at which `p` holds.
spec fn count_range(p: spec_fn(int) -> bool, lo: int, hi: int) -> nat
    decreases hi - lo,
{
    if hi <= lo {
        0
    } else {
        count_range(p, lo, hi - 1) + (if p(hi - 1) {
            1nat
        } else {
            0nat
        })
    }
}

proof fn lemma_count_range_first(p: spec_fn(int) -> bool, lo: int, hi: int)
    requires
        lo < hi,
    ensures
        count_range(p, lo, hi) == (if p(lo) {
            1nat
        } else {
            0nat
        }) + count_range(p, lo + 1, hi),
    decreases hi - lo,
{
    if hi - 1 > lo {
        lemma_count_range_first(p, lo, hi - 1);
    } else {
        assert(count_range(p, lo, lo) == 0);
        assert(count_range(p, lo + 1, hi) == 0);
    }
}

proof fn lemma_count_range_reflect(
    p: spec_fn(int) -> bool,
    q: spec_fn(int) -> bool,
    c: int,
    lo: int,
    hi: int,
)
    requires
        forall|i: int| lo <= i < hi ==> #[trigger] q(i) == p(c - i),
    ensures
        count_range(q, lo, hi) == count_range(p, c - hi + 1, c - lo + 1),
    decreases hi - lo,
{
    if hi > lo {
        lemma_count_range_reflect(p, q, c, lo, hi - 1);
        lemma_count_range_first(p, c - hi + 1, c - lo + 1);
    }
}

proof fn lemma_occurrences_as_count_range(
    data: Seq<u8>,
    n: nat,
    block: Seq<u8>,
    p: spec_fn(int) -> bool,
    k: int,
)
    requires
        forall|i: int| 0 <= i < k ==> #[trigger] p(i) == (block_at(data, n, i) == block),
    ensures
        occurrences_before(data, n, block, k) == count_range(p, 0, k),
    decreases k,
{
    if k > 0 {
        lemma_occurrences_as_count_range(data, n, block, p, k - 1);
    }
}

proof fn lemma_reverse_injective(a: Seq<u8>, b: Seq<u8>)
    requires
        a.reverse() =~= b.reverse(),
    ensures
        a == b,
{
    assert(a.reverse().len() == a.len());
    assert(b.reverse().len() == b.len());
    assert forall|i: int| 0 <= i < a.len() implies a[i] == b[i] by {
        assert(a.reverse()[a.len() - 1 - i] == b.reverse()[b.len() - 1 - i]);
    }
    assert(a =~= b);
}

/// Single-byte blocks count bytes: the count of the one-byte block `[b]`
/// equals the byte count of `b`, so `ngram_counts(data, 1)` agrees with
/// `ByteHistogram::from_bytes(data)` on every byte.
pub proof fn lemma_unigrams_count_bytes(data: Seq<u8>, b: u8)
    ensures
        occurrences(data, 1, seq![b]) == byte_count(data, b),
{
    assert forall|k: int| 0 <= k <= data.len() implies occurrences_before(data, 1, seq![b], k)
        == byte_count(#[trigger] data.take(k), b) by {
        lemma_unigram_prefix(data, b, k);
    }
    assert(data.take(data.len() as int) =~= data);
}

proof fn lemma_unigram_prefix(data: Seq<u8>, b: u8, k: int)
    requires
        0 <= k <= data.len(),
    ensures
        occurrences_before(data, 1, seq![b], k) == byte_count(data.take(k), b),
    decreases k,
{
    broadcast use vstd::seq_lib::group_to_multiset_ensures;

    if k == 0 {
        assert(data.take(0) =~= Seq::<u8>::empty());
        assert(!data.take(0).contains(b));
    } else {
        lemma_unigram_prefix(data, b, k - 1);
        assert(data.take(k) =~= data.take(k - 1).push(data[k - 1]));
        let w = block_at(data, 1, k - 1);
        assert(w =~= seq![data[k - 1]]);
        if data[k - 1] != b {
            assert(w[0] != seq![b][0]);
        }
    }
}

/// Reading the input backwards reverses every block and keeps its count:
/// the reversed block occurs in the reversed input as often as the block
/// occurs in the input.
pub proof fn lemma_reversal_keeps_block_counts(data: Seq<u8>, n: nat, block: Seq<u8>)
    ensures
        occurrences(data.reverse(), n, block.reverse()) == occurrences(data, n, block),
{
    let len = data.len();
    let m = window_count(len, n);
    let rev = data.reverse();
    let brev = block.reverse();
    let p = |i: int| block_at(data, n, i) == block;
    let q = |i: int| block_at(rev, n, i) == brev;
    if m > 0 {
        assert forall|i: int| 0 <= i < m implies #[trigger] q(i) == p(m - 1 - i) by {
            let j = m - 1 - i;
            assert(block_at(rev, n, i) =~= block_at(data, n, j).reverse());
            if block_at(rev, n, i) == brev {
                lemma_reverse_injective(block_at(data, n, j), block);
            }
        }
    }
    lemma_occurrences_as_count_range(data, n, block, p, m as int);
    lemma_occurrences_as_count_range(rev, n, brev, q, m as int);
    if m > 0 {
        lemma_count_range_reflect(p, q, m - 1, 0, m as int);
    }
}

proof fn lemma_relabel_prefix(
    data: Seq<u8>,
    n: nat,
    block: Seq<u8>,
    f: spec_fn(u8) -> u8,
    k: int,
)
    requires
        forall|x: u8, y: u8| #[trigger] f(x) == #[trigger] f(y) ==> x == y,
        k <= window_count(data.len(), n),
    ensures
        occurrences_before(data.map_values(f), n, block.map_values(f), k) == occurrences_before(
            data,
            n,
            block,
            k,
        ),
    decreases k,
{
    if k > 0 {
        lemma_relabel_prefix(data, n, block, f, k - 1);
        let w = block_at(data, n, k - 1);
        let mapped = data.map_values(f);
        assert(block_at(mapped, n, k - 1) =~= w.map_values(f));
        if w.map_values(f) == block.map_values(f) {
            assert(w.len() == block.len());
            assert forall|j: int| 0 <= j < w.len() implies w[j] == block[j] by {
                assert(w.map_values(f)[j] == block.map_values(f)[j]);
            }
            assert(w =~= block);
        }
    }
}

/// Renaming bytes by a one-to-one map renames blocks and keeps their counts:
/// the renamed block occurs in the renamed input as often as the block occurs
/// in the input.
pub proof fn lemma_relabeling_keeps_block_counts(
    data: Seq<u8>,
    n: nat,
    block: Seq<u8>,
    f: spec_fn(u8) -> u8,
)
    requires
        forall|x: u8, y: u8| #[trigger] f(x) == #[trigger] f(y) ==> x == y,
    ensures
        occurrences(data.map_values(f), n, block.map_values(f)) == occurrences(data, n, block),
{
    lemma_relabel_prefix(data, n, block, f, window_count(data.len(), n) as int);
}

/// No block is counted more often than there are block occurrences, and no
/// table lists more distinct blocks than it counts occurrences.
pub proof fn lemma_counts_bounded_by_total(entries: Seq<(Seq<u8>, usize)>, n: nat, block: Seq<u8>)
    requires
        table_ok(entries, n),
    ensures
        count_in(entries, block) <= entry_total(entries),
        entries.len() <= entry_total(entries),
    decreases entries.len(),
{
    if entries.len() > 0 {
        let t = entries.drop_last();
        assert(table_ok(t, n));
        lemma_counts_bounded_by_total(t, n, block);
    }
}

proof fn lemma_count_in_positive_has_key(s: Seq<(Seq<u8>, usize)>, block: Seq<u8>) -> (j: int)
    requires
        count_in(s, block) > 0,
    ensures
        0 <= j < s.len(),
        s[j].0 == block,
    decreases s.len(),
{
    if s.last().0 == block {
        (s.len() - 1) as int
    } else {
        lemma_count_in_positive_has_key(s.drop_last(), block)
    }
}

proof fn lemma_drop_last_counts(s: Seq<(Seq<u8>, usize)>, n: nat, block: Seq<u8>)
    requires
        table_ok(s, n),
        s.len() > 0,
    ensures
        table_ok(s.drop_last(), n),
        count_in(s.drop_last(), block) + (if s.last().0 == block {
            s.last().1 as nat
        } else {
            0nat
        }) == count_in(s, block),
{
}

/// A count table is determined by its counts: two tables for blocks of one
/// length that give every block the same count are equal. So the table of
/// `ngram_counts(data, n)` is a function of `data` and `n` alone, and
/// `ngram_probabilities(data, n)` holds the same table.
pub proof fn lemma_table_determined_by_counts(
    s: Seq<(Seq<u8>, usize)>,
    t: Seq<(Seq<u8>, usize)>,
    n: nat,
)
    requires
        table_ok(s, n),
        table_ok(t, n),
        forall|block: Seq<u8>| #[trigger] count_in(s, block) == count_in(t, block),
    ensures
        s == t,
    decreases s.len() + t.len(),
{
    if s.len() == 0 && t.len() == 0 {
        assert(s =~= t);
    } else if s.len() == 0 {
        lemma_count_in_present(t, n, t.len() - 1);
        assert(count_in(s, t[t.len() - 1].0) == count_in(t, t[t.len() - 1].0));
    } else if t.len() == 0 {
        lemma_count_in_present(s, n, s.len() - 1);
        assert(count_in(s, s[s.len() - 1].0) == count_in(t, s[s.len() - 1].0));
    } else {
        let ls = s.len() - 1;
        let lt = t.len() - 1;
        let ks = s[ls].0;
        let kt = t[lt].0;
        lemma_count_in_present(s, n, ls);
        lemma_count_in_present(t, n, lt);
        assert(count_in(s, ks) == count_in(t, ks));
        assert(count_in(s, kt) == count_in(t, kt));
        if ks != kt {
            let j = lemma_count_in_positive_has_key(t, ks);
            let i = lemma_count_in_positive_has_key(s, kt);
            assert(j != lt);
            assert(i != ls);
            assert(lex_lt(t[j].0, t[lt].0));
            assert(lex_lt(s[i].0, s[ls].0));
            lemma_lex_asymmetric(ks, kt);
        }
        assert(s[ls] == t[lt]);
        assert forall|block: Seq<u8>| #[trigger] count_in(s.drop_last(), block) == count_in(
            t.drop_last(),
            block,
        ) by {
            lemma_drop_last_counts(s, n, block);
            lemma_drop_last_counts(t, n, block);
        }
        lemma_drop_last_counts(s, n, ks);
        lemma_drop_last_counts(t, n, ks);
        lemma_table_determined_by_counts(s.drop_last(), t.drop_last(), n);
        assert(s =~= s.drop_last().push(s[ls]));
        assert(t =~= t.drop_last().push(t[lt]));
    }
}

proof fn lemma_append_keeps_earlier_positions(
    data: Seq<u8>,
    x: u8,
    n: nat,
    block: Seq<u8>,
    k: int,
)
    requires
        k + n <= data.len() + 1,
    ensures
        occurrences_before(data.push(x), n, block, k) == occurrences_before(data, n, block, k),
    decreases k,
{
    if k > 0 {
        lemma_append_keeps_earlier_positions(data, x, n, block, k - 1);
        assert(block_at(data.push(x), n, k - 1) =~= block_at(data, n, k - 1));
    }
}

/// An input shorter than `n` has no `n`-byte block at all.
pub proof fn lemma_short_input_has_no_blocks(data: Seq<u8>, n: nat, block: Seq<u8>)
    requires
        data.len() < n,
    ensures
        occurrences(data, n, block) == 0,
{
}

/// Appending one byte to the input adds exactly one block occurrence: the
/// last `n` bytes of the longer input. Every other block keeps its count.
/// Together with `lemma_short_input_has_no_blocks` this fixes every count,
/// and the counts of an input of length `L` add up to `L - n + 1`.
pub proof fn lemma_append_adds_one_occurrence(data: Seq<u8>, x: u8, n: nat, block: Seq<u8>)
    requires
        1 <= n <= data.len() + 1,
    ensures
        occurrences(data.push(x), n, block) == occurrences(data, n, block) + (if block
            == data.push(x).subrange(data.len() + 1 - n, data.len() + 1 as int) {
            1nat
        } else {
            0nat
        }),
{
    let d = data.push(x);
    let m = data.len() + 1 - n;
    assert(window_count(d.len(), n) == m + 1);
    lemma_append_keeps_earlier_positions(data, x, n, block, m as int);
    if n <= data.len() {
        assert(window_count(data.len(), n) == m);
    } else {
        assert(m == 0);
    }
    assert(block_at(d, n, m as int) == d.subrange(data.len() + 1 - n, data.len() + 1 as int));
}

} // verus!
