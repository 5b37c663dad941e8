//! Exact byte counts, totals, support sizes and count-table validation.

use celandine::distribution::{ByteHistogram, CountOverflow, Distribution};
use celandine::entropy::{InvalidLogBase, InvalidRenyiOrder, InvalidTsallisOrder, maximum_count};

#[test]
fn histogram_counts_and_support_are_distinct() {
    let counts = ByteHistogram::from_bytes(&[0, 0, 128, 255]);
    assert_eq!(counts.total(), 4);
    assert_eq!(counts.support_size(), 3);
    assert_eq!(counts.count(0), 2);
    assert_eq!(counts.count(128), 1);
    assert_eq!(counts.count(255), 1);
    assert_eq!(counts.count(1), 0);
    assert_eq!(counts.counts().iter().sum::<usize>(), 4);
    let d = Distribution::from_counts(counts);
    assert_eq!(d.sample_size(), 4);
    assert_eq!(d.support_size(), 3);
    assert_eq!(d.histogram().count(0), 2);
}

#[test]
fn empty_state_is_explicit() {
    let d = Distribution::from_bytes(b"");
    assert!(d.is_empty());
    assert!(d.histogram().is_empty());
    assert_eq!(d.sample_size(), 0);
    assert_eq!(d.support_size(), 0);
    assert!(d.histogram().counts().iter().all(|&c| c == 0));
    let zero = ByteHistogram::try_from_counts([0; 256]).unwrap();
    assert_eq!(zero.total(), 0);
    assert_eq!(zero, ByteHistogram::from_bytes(b""));
}

#[test]
fn try_from_counts_rejects_overflow_and_accepts_maximum_total() {
    let mut counts = [0; 256];
    counts[0] = usize::MAX;
    let histogram = ByteHistogram::try_from_counts(counts).unwrap();
    assert_eq!(histogram.total(), usize::MAX);
    assert_eq!(histogram.support_size(), 1);
    counts[255] = 1;
    assert_eq!(ByteHistogram::try_from_counts(counts), Err(CountOverflow));
    counts[0] -= 1;
    let d = Distribution::from_counts(ByteHistogram::try_from_counts(counts).unwrap());
    assert_eq!(d.sample_size(), usize::MAX);
    assert_eq!(d.support_size(), 2);
    assert_eq!(d.histogram().counts(), &counts);
    assert_eq!(
        CountOverflow.message(),
        "byte count total exceeds usize::MAX"
    );
}

#[test]
fn counting_discards_order() {
    let a = ByteHistogram::from_bytes(b"AAAB");
    let b = ByteHistogram::from_bytes(b"ABAA");
    assert_eq!(a, b);
    assert_eq!(a.count(b'A'), 3);
    assert_eq!(a.count(b'B'), 1);
    assert_eq!(a.clone(), b);
    assert_eq!(Distribution::from_bytes(b"BAAA"), Distribution::from_counts(a));
}

#[test]
fn every_uniform_byte_support() {
    for k in 1..=256usize {
        let input: Vec<u8> = (0..k).map(|i| i as u8).collect();
        let h = ByteHistogram::from_bytes(&input);
        assert_eq!(h.support_size(), k);
        assert_eq!(h.total(), k);
        let repeated: Vec<u8> = input.iter().chain(input.iter()).copied().collect();
        let d = Distribution::from_bytes(&repeated);
        assert_eq!(d.support_size(), k);
        assert_eq!(d.sample_size(), 2 * k);
        assert!((0..k).all(|i| d.histogram().count(i as u8) == 2));
    }
}

#[test]
fn maximum_count_picks_the_last_largest_byte() {
    let h = ByteHistogram::from_bytes(b"AAAB");
    assert_eq!(maximum_count(h.counts()), (b'A' as usize, 3));
    let tie = ByteHistogram::from_bytes(b"ABAB");
    assert_eq!(maximum_count(tie.counts()), (b'B' as usize, 2));
    assert_eq!(maximum_count(&[0; 256]), (255, 0));
    let mut counts = [7; 256];
    counts[3] = 9;
    assert_eq!(maximum_count(&counts), (3, 9));
}

#[test]
fn parameter_error_messages() {
    assert_eq!(
        InvalidRenyiOrder.message(),
        "Rényi order must be nonnegative and not NaN"
    );
    assert_eq!(
        InvalidTsallisOrder.message(),
        "Tsallis order must be finite and nonnegative"
    );
    assert_eq!(
        InvalidLogBase.message(),
        "logarithm base must be finite and greater than one"
    );
}
