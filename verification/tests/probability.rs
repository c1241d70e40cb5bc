use entropy_code::probability::{pair_counts, FrequencyDistribution};

#[test]
fn probability_test_empty() {
    let freq = FrequencyDistribution::from_bytes(&[]);
    assert_eq!(freq.total(), 0);
    assert_eq!(freq.alphabet_size(), 0);
}

#[test]
fn test_frequency_from_bytes() {
    let freq = FrequencyDistribution::from_bytes(b"aab");
    assert_eq!(freq.count(b'a'), 2);
    assert_eq!(freq.count(b'b'), 1);
    assert_eq!(freq.total(), 3);
}

#[test]
fn test_mode() {
    let freq = FrequencyDistribution::from_bytes(b"aaabbc");
    assert_eq!(freq.mode(), Some(b'a'));
}

#[test]
fn frequency_pairs_in_symbol_order() {
    let freq = FrequencyDistribution::from_bytes(b"hello");
    assert_eq!(freq.iter(), vec![(b'e', 1), (b'h', 1), (b'l', 2), (b'o', 1)]);
    assert_eq!(freq.alphabet_size(), 4);
    assert_eq!(freq.count(b'z'), 0);
    assert_eq!(freq.total(), 5);
}

#[test]
fn mode_of_empty_and_ties() {
    assert_eq!(FrequencyDistribution::from_bytes(&[]).mode(), None);
    // Equally frequent symbols: the largest is reported.
    assert_eq!(FrequencyDistribution::from_bytes(b"abab").mode(), Some(b'b'));
    assert_eq!(FrequencyDistribution::from_bytes(&[0, 255, 255]).mode(), Some(255));
}

#[test]
fn clone_keeps_counts() {
    let freq = FrequencyDistribution::from_bytes(b"mississippi");
    let copy = freq.clone();
    assert_eq!(copy.iter(), freq.iter());
    assert_eq!(copy.total(), 11);
}

#[test]
fn pair_counts_count_positions_of_both() {
    let counts = pair_counts(b"abab", b"xyxyz");
    assert_eq!(counts.len(), 65536);
    assert_eq!(counts[256 * b'a' as usize + b'x' as usize], 2);
    assert_eq!(counts[256 * b'b' as usize + b'y' as usize], 2);
    assert_eq!(counts[256 * b'a' as usize + b'y' as usize], 0);
    assert_eq!(counts.iter().sum::<usize>(), 4);
    assert!(pair_counts(b"", b"abc").iter().all(|&c| c == 0));
}
