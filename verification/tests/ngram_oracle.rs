//! An independent n-gram oracle on generated raw inputs: a little-endian u64
//! block length followed by at most 512 data bytes.

use celandine::distribution::{ngram_counts, ngram_probabilities};

// Short inputs are zero-padded rather than discarded.
fn word(data: &[u8], start: usize) -> u64 {
    let mut bytes = [0; 8];
    for (i, byte) in bytes.iter_mut().enumerate() {
        *byte = data.get(start + i).copied().unwrap_or(0);
    }
    u64::from_le_bytes(bytes)
}

fn close(actual: f64, expected: f64) {
    assert!(actual.is_finite() && expected.is_finite());
    assert!(
        (actual - expected).abs() <= 1e-11 * expected.abs().max(1.0),
        "actual={actual:e}, expected={expected:e}"
    );
}

fn check_ngrams(input: &[u8]) {
    let n = word(input, 0) as usize;
    let data = &input[input.len().min(8)..input.len().min(520)];
    let blocks = celandine::transforms::ngrams(data, n);
    let counts = ngram_counts(data, n);
    let distribution = ngram_probabilities(data, n);
    assert_eq!(blocks.is_ok(), n > 0);
    assert_eq!(counts.is_ok(), n > 0);
    assert_eq!(distribution.is_ok(), n > 0);
    if n == 0 {
        return;
    }
    let blocks = blocks.unwrap();
    let counts = counts.unwrap();
    let d = distribution.unwrap();
    let total = if n > data.len() {
        0
    } else {
        data.len() - n + 1
    };
    // Explicit positions and sorted runs, rather than windows plus a table.
    let mut expected: Vec<_> = (0..total).map(|i| &data[i..i + n]).collect();
    assert_eq!(blocks.len(), total);
    for (actual, expected) in blocks.to_vec().into_iter().zip(&expected) {
        assert_eq!(actual, *expected);
        assert_eq!(actual.as_ptr(), expected.as_ptr());
    }
    let mut backwards = blocks.clone();
    for expected in expected.iter().rev() {
        assert_eq!(backwards.next_back(), Some(*expected));
    }
    assert_eq!(backwards.next_back(), None);
    expected.sort_unstable();
    let mut runs: Vec<(&[u8], usize)> = Vec::new();
    for &block in &expected {
        match runs.last_mut() {
            Some((last, count)) if *last == block => *count += 1,
            _ => runs.push((block, 1)),
        }
    }
    assert_eq!(counts.total(), total);
    assert_eq!(counts.ngram_len(), n);
    assert_eq!(counts.is_empty(), total == 0);
    assert_eq!(counts.support_size(), runs.len());
    assert_eq!(counts.counts().to_vec(), runs);
    assert_eq!(d.counts(), &counts);
    assert_eq!(d.sample_size(), total);
    assert_eq!(d.ngram_len(), n);
    assert_eq!(d.support_size(), runs.len());
    assert_eq!(d.is_empty(), total == 0);
    for &(block, count) in &runs {
        assert_eq!(counts.count(block), count);
        close(
            d.counts().count(block) as f64 / total as f64,
            count as f64 / total as f64,
        );
    }
    assert_eq!(counts.count(b""), 0);
    // Query an arbitrary prefix, including absent blocks and wrong lengths.
    let query = &data[..data.len().min(data.first().copied().unwrap_or(0) as usize)];
    let expected_count = expected.iter().filter(|&&block| block == query).count();
    assert_eq!(counts.count(query), expected_count);
}

fn input_with_length(n: u64, data: &[u8]) -> Vec<u8> {
    let mut input = n.to_le_bytes().to_vec();
    input.extend_from_slice(data);
    input
}

#[test]
fn oracle_agrees_on_generated_inputs() {
    let mut state = 0x6f72_6163_6c65u64;
    for round in 0..300 {
        state ^= state << 13;
        state ^= state >> 7;
        state ^= state << 17;
        let len = (state % 520) as usize;
        let n = match round % 4 {
            0 => 0,
            1 => 1 + (state >> 20) % 4,
            2 => 1 + (state >> 20) % 40,
            _ => (state >> 11) % 600,
        };
        let data: Vec<u8> = (0..len)
            .map(|i| ((state >> (i % 56)) as u8) % if round % 2 == 0 { 3 } else { 255 })
            .collect();
        check_ngrams(&input_with_length(n, &data));
    }
    check_ngrams(&[]);
    check_ngrams(&[1]);
    check_ngrams(&input_with_length(u64::MAX, b"ABABA"));
    check_ngrams(&input_with_length(2, b"\x05ABABABABAB"));
}
