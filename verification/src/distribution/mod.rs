//! Exact byte counts, empirical distributions backed by them, and count
//! tables of overlapping byte blocks.

mod counts;
mod ngram_laws;
mod ngrams;
mod probability;

pub use counts::{
    ByteHistogram, CountOverflow, byte_count, lemma_elem_le_sum, lemma_rearrangement_keeps_counts,
    lemma_reversal_keeps_counts, sum_counts, support_of,
};
pub use ngrams::{
    NgramCounts, NgramDistribution, ngram_counts, ngram_probabilities, count_in, differs_first_at, entries_view, entry_total, lex_lt,
    occurrences, occurrences_before, table_ok,
};
pub use ngram_laws::{
    lemma_append_adds_one_occurrence, lemma_short_input_has_no_blocks,
    lemma_counts_bounded_by_total, lemma_relabeling_keeps_block_counts, lemma_table_determined_by_counts,
    lemma_reversal_keeps_block_counts, lemma_unigrams_count_bytes,
};
pub use probability::Distribution;
