//! Positional blocks, exact counts, empirical probabilities, and borrowing.

use celandine::distribution::{
    ByteHistogram, Distribution, NgramDistribution, ngram_counts, ngram_probabilities,
};
use celandine::transforms::{InvalidNgramLength, ngrams};

/// `count(block) / max(sample_size, 1)` as a float, the empirical probability.
fn probability(d: &NgramDistribution, block: &[u8]) -> f64 {
    d.counts().count(block) as f64 / d.sample_size().max(1) as f64
}

/// Observed `(block, probability)` pairs in lexicographic order.
fn probabilities<'a>(d: &NgramDistribution<'a>) -> Vec<(&'a [u8], f64)> {
    let total = d.sample_size().max(1) as f64;
    d.counts()
        .counts()
        .iter()
        .map(|&(block, count)| (block, count as f64 / total))
        .collect()
}

#[test]
fn overlapping_occurrences_and_reused_counts() {
    let blocks: Vec<_> = ngrams(b"ABABA", 2).unwrap().to_vec();
    assert_eq!(blocks, vec![b"AB", b"BA", b"AB", b"BA"]);
    let c = ngram_counts(b"ABABA", 2).unwrap();
    assert_eq!(c.ngram_len(), 2);
    assert_eq!(c.total(), 4);
    assert_eq!(c.support_size(), 2);
    assert!(!c.is_empty());
    assert_eq!(c.counts().to_vec(), vec![(&b"AB"[..], 2), (&b"BA"[..], 2)]);
    for absent in [&b"AA"[..], b"", b"A", b"ABA"] {
        assert_eq!(c.count(absent), 0);
    }
    let d = NgramDistribution::from_counts(c);
    assert_eq!(d.sample_size(), 4);
    assert_eq!(d.support_size(), 2);
    assert_eq!(d.ngram_len(), 2);
    assert!(!d.is_empty());
    assert_eq!(probabilities(&d), vec![(&b"AB"[..], 0.5), (&b"BA"[..], 0.5)]);
    for absent in [&b"AA"[..], b"", b"A", b"ABA"] {
        assert_eq!(probability(&d, absent).to_bits(), 0.0_f64.to_bits());
    }
    assert_eq!(d, ngram_probabilities(b"ABABA", 2).unwrap());
    let repeated = ngram_counts(b"AAAA", 2).unwrap();
    assert_eq!(repeated.total(), 3);
    assert_eq!(repeated.count(b"AA"), 3);
}

#[test]
fn invalid_empty_and_extreme_lengths() {
    for data in [&b""[..], b"A", b"AB"] {
        assert_eq!(ngrams(data, 0).unwrap_err(), InvalidNgramLength);
        assert_eq!(ngram_counts(data, 0).unwrap_err(), InvalidNgramLength);
        assert_eq!(
            ngram_probabilities(data, 0).unwrap_err(),
            InvalidNgramLength
        );
        for n in [data.len() + 1, usize::MAX] {
            assert_eq!(ngrams(data, n).unwrap().len(), 0);
            let d = ngram_probabilities(data, n).unwrap();
            assert!(d.is_empty());
            assert!(d.counts().is_empty());
            assert_eq!(d.ngram_len(), n);
            assert_eq!(d.sample_size(), 0);
            assert_eq!(d.support_size(), 0);
            assert_eq!(d.counts().counts().len(), 0);
            assert_eq!(probabilities(&d).len(), 0);
            assert_eq!(probability(&d, data).to_bits(), 0.0_f64.to_bits());
        }
        if !data.is_empty() {
            let d = ngram_probabilities(data, data.len()).unwrap();
            assert_eq!(d.sample_size(), 1);
            assert_eq!(probability(&d, data), 1.0);
        }
    }
    assert_eq!(
        InvalidNgramLength.message(),
        "n-gram length must be greater than zero"
    );
}

#[test]
fn iteration_is_borrowed_exact_double_ended_and_fused() {
    let data = [0, 255, 128, 0, 255];
    let mut blocks = ngrams(&data, 2).unwrap();
    assert_eq!(blocks.len(), 4);
    assert_eq!(blocks.next().unwrap().as_ptr(), data.as_ptr());
    assert_eq!(blocks.next_back().unwrap().as_ptr(), data[3..].as_ptr());
    assert_eq!(blocks.len(), 2);
    assert_eq!(blocks.nth(1), Some(&data[2..4]));
    assert_eq!(blocks.len(), 0);
    assert_eq!(blocks.next(), None);
    assert_eq!(blocks.next_back(), None);
    let d = ngram_probabilities(&data, 2).unwrap();
    assert_eq!(
        probabilities(&d).into_iter().map(|(g, _)| g).collect::<Vec<_>>(),
        vec![&[0, 255][..], &[128, 0], &[255, 128]]
    );
    for &(block, _) in d.counts().counts() {
        assert!((0..data.len()).any(|i| block.as_ptr() == data[i..].as_ptr()));
    }
}

#[test]
fn order_is_preserved_locally_and_utf8_is_not_decoded() {
    assert_eq!(
        ByteHistogram::from_bytes(b"AABB"),
        ByteHistogram::from_bytes(b"ABAB")
    );
    assert_ne!(
        ngram_counts(b"AABB", 2).unwrap(),
        ngram_counts(b"ABAB", 2).unwrap()
    );
    let text = "éé".as_bytes();
    let c = ngram_counts(text, 2).unwrap();
    assert_eq!(c.total(), 3);
    assert_eq!(c.count(&[0xc3, 0xa9]), 2);
    assert_eq!(c.count(&[0xa9, 0xc3]), 1); // Spans character boundaries.
}

#[test]
fn exhaustive_binary_strings_match_explicit_position_comparisons() {
    for length in 0..=7 {
        for bits in 0..(1usize << length) {
            let data: Vec<u8> = (0..length).map(|i| ((bits >> i) & 1) as u8).collect();
            for n in 1..=length + 2 {
                let d = ngram_probabilities(&data, n).unwrap();
                // Independent scalar definition: compare every byte at every valid start.
                let mut total = 0;
                let mut support = 0;
                for pattern in 0..(1usize << n) {
                    let block: Vec<u8> = (0..n).map(|i| ((pattern >> i) & 1) as u8).collect();
                    let expected = (0..length)
                        .filter(|&start| {
                            start + n <= length && (0..n).all(|j| data[start + j] == block[j])
                        })
                        .count();
                    assert_eq!(d.counts().count(&block), expected);
                    assert_eq!(
                        probability(&d, &block),
                        expected as f64 / d.sample_size().max(1) as f64
                    );
                    total += expected;
                    support += usize::from(expected != 0);
                }
                assert_eq!(d.sample_size(), total);
                assert_eq!(d.support_size(), support);
            }
        }
    }
}

/// A small deterministic generator so that the checks below are reproducible.
fn next_random(state: &mut u64) -> u64 {
    *state ^= *state << 13;
    *state ^= *state >> 7;
    *state ^= *state << 17;
    *state
}

#[test]
fn conservation_sorted_support_and_unigram_agreement_on_generated_inputs() {
    let mut state = 0x4e47_5241_4d53u64;
    for _ in 0..256 {
        let len = (next_random(&mut state) % 513) as usize;
        let n = 1 + (next_random(&mut state) % 529) as usize;
        let data: Vec<u8> = (0..len).map(|_| next_random(&mut state) as u8).collect();
        let d = ngram_probabilities(&data, n).unwrap();
        let expected = if n <= data.len() { data.len() - n + 1 } else { 0 };
        assert_eq!(d.sample_size(), expected);
        assert_eq!(
            d.counts().counts().iter().map(|&(_, c)| c).sum::<usize>(),
            expected
        );
        assert!(d.support_size() <= expected);
        let mut previous: Option<&[u8]> = None;
        let mut mass = 0.0;
        for (g, p) in probabilities(&d) {
            assert_eq!(g.len(), n);
            assert!(p > 0.0 && p <= 1.0);
            if let Some(last) = previous {
                assert!(last < g);
            }
            previous = Some(g);
            mass += p;
        }
        let expected_mass = if expected > 0 { 1.0 } else { 0.0 };
        assert!((mass - expected_mass).abs() <= 1e-12);
        let unigram = ngram_probabilities(&data, 1).unwrap();
        let bytes = Distribution::from_bytes(&data);
        assert_eq!(unigram.support_size(), bytes.support_size());
        for b in 0..=255 {
            assert_eq!(unigram.counts().count(&[b]), bytes.histogram().count(b));
            let byte_probability =
                bytes.histogram().count(b) as f64 / bytes.sample_size().max(1) as f64;
            assert_eq!(
                probability(&unigram, &[b]).to_bits(),
                byte_probability.to_bits()
            );
        }
    }
}

#[test]
fn reversal_and_bijective_relabeling_keep_counts_on_generated_inputs() {
    let mut state = 0x5245_5645_5253u64;
    for _ in 0..256 {
        let len = (next_random(&mut state) % 257) as usize;
        let n = 1 + (next_random(&mut state) % 19) as usize;
        let mask = next_random(&mut state) as u8;
        let data: Vec<u8> = (0..len).map(|_| (next_random(&mut state) % 8) as u8).collect();
        let reversed: Vec<_> = data.iter().rev().copied().collect();
        let renamed: Vec<_> = data.iter().map(|b| b ^ mask).collect();
        let original = ngram_counts(&data, n).unwrap();
        let rev = ngram_counts(&reversed, n).unwrap();
        let relabeled = ngram_counts(&renamed, n).unwrap();
        assert_eq!(original.support_size(), rev.support_size());
        assert_eq!(original.support_size(), relabeled.support_size());
        for &(g, count) in original.counts() {
            let r: Vec<_> = g.iter().rev().copied().collect();
            let renamed: Vec<_> = g.iter().map(|b| b ^ mask).collect();
            assert_eq!(rev.count(&r), count);
            assert_eq!(relabeled.count(&renamed), count);
        }
    }
}

#[test]
fn windows_clone_and_collect_remaining_blocks() {
    let data = b"ABCDE";
    let mut blocks = ngrams(data, 3).unwrap();
    let copy = blocks.clone();
    assert_eq!(blocks.next(), Some(&b"ABC"[..]));
    assert_eq!(blocks.to_vec(), vec![&b"BCD"[..], &b"CDE"[..]]);
    assert_eq!(copy.len(), 3);
    assert!(!copy.is_empty());
    assert_eq!(blocks.nth(5), None);
    assert!(blocks.is_empty());
    assert_eq!(blocks.next(), None);
}

#[test]
fn counts_clone_is_equal_and_lookup_uses_contents() {
    let data = b"ZYXZYXAB";
    let c = ngram_counts(data, 3).unwrap();
    assert_eq!(c.clone(), c);
    assert_eq!(
        c.counts().to_vec(),
        vec![
            (&b"XAB"[..], 1),
            (&b"XZY"[..], 1),
            (&b"YXA"[..], 1),
            (&b"YXZ"[..], 1),
            (&b"ZYX"[..], 2),
        ]
    );
    let query = vec![b'Z', b'Y', b'X'];
    assert_eq!(c.count(&query), 2);
    assert_eq!(c.count(b"ZZZ"), 0);
}
