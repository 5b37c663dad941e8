//! Overlapping byte n-grams: every contiguous block of one positive length.

mod ngrams;

pub use ngrams::{
    InvalidNgramLength, NgramWindows, block_at, blocks_of, lemma_append_adds_last_block,
    lemma_blocks_are_all_windows, ngrams, window_count,
};
