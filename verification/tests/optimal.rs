use entropy_code::kraft::verify;
use entropy_code::optimal::{length_limited_lengths, optimal_code_lengths};
use entropy_code::probability::FrequencyDistribution;

#[test]
fn optimal_test_empty() {
    let freq = FrequencyDistribution::from_bytes(&[]);
    assert!(optimal_code_lengths(&freq).is_empty());
}

#[test]
fn test_uniform_distribution() {
    let freq = FrequencyDistribution::from_bytes(b"abcd");
    let lengths = optimal_code_lengths(&freq);
    // Each symbol has p=0.25, optimal length = ceil(2) = 2
    for &(_, len) in &lengths {
        assert_eq!(len, 2);
    }
}

#[test]
fn test_length_limited() {
    let freq = FrequencyDistribution::from_bytes(b"aaabbc");
    let lengths = length_limited_lengths(&freq, 4);
    for &(_, len) in &lengths {
        assert!(len <= 4);
    }
}

#[test]
fn optimal_lengths_exact() {
    let freq = FrequencyDistribution::from_bytes(b"aaabbc");
    assert_eq!(optimal_code_lengths(&freq), vec![(b'a', 1), (b'b', 2), (b'c', 3)]);
    let freq = FrequencyDistribution::from_bytes(b"aaaa");
    assert_eq!(optimal_code_lengths(&freq), vec![(b'a', 1)]);
    let freq = FrequencyDistribution::from_bytes(b"aaaaaaab");
    assert_eq!(optimal_code_lengths(&freq), vec![(b'a', 1), (b'b', 3)]);
}

#[test]
fn optimal_lengths_satisfy_kraft() {
    for data in [&b"hello world"[..], b"aaabbc", b"abcdefghijklmnopq", b"zzzzzzzzzzzzzzzzzzzzzzzzzza"] {
        let freq = FrequencyDistribution::from_bytes(data);
        let lengths: Vec<usize> = optimal_code_lengths(&freq).iter().map(|&(_, l)| l).collect();
        assert!(verify(&lengths));
    }
}

#[test]
fn length_limited_keeps_fitting_lengths() {
    let freq = FrequencyDistribution::from_bytes(b"aaabbc");
    assert_eq!(length_limited_lengths(&freq, 4), vec![(b'a', 1), (b'b', 2), (b'c', 2)]);
    assert_eq!(length_limited_lengths(&freq, 2), vec![(b'a', 1), (b'b', 2), (b'c', 2)]);
}

#[test]
fn length_limited_respects_the_limit() {
    // Four symbols fit in two bits: only 2, 2, 2, 2 does.
    let freq = FrequencyDistribution::from_bytes(b"aaaaabcd");
    assert_eq!(
        length_limited_lengths(&freq, 2),
        vec![(b'a', 2), (b'b', 2), (b'c', 2), (b'd', 2)]
    );
    let freq = FrequencyDistribution::from_bytes(b"hello world");
    let lengths = length_limited_lengths(&freq, 3);
    assert!(lengths.iter().all(|&(_, l)| l == 3));
    assert_eq!(lengths.len(), 8);
}

#[test]
fn length_limited_is_cheapest() {
    // Two symbols need one bit each, however skewed.
    let freq = FrequencyDistribution::from_bytes(b"aab");
    assert_eq!(length_limited_lengths(&freq, 8), vec![(b'a', 1), (b'b', 1)]);
    let freq = FrequencyDistribution::from_bytes(b"hello world");
    assert_eq!(
        length_limited_lengths(&freq, 64),
        vec![(b' ', 4), (b'd', 4), (b'e', 4), (b'h', 4), (b'l', 2), (b'o', 2), (b'r', 3), (b'w', 3)]
    );
}

#[test]
fn length_limited_too_small_limit() {
    // Three symbols do not fit in one bit (or none): two bits are used.
    let freq = FrequencyDistribution::from_bytes(b"aaabbc");
    assert_eq!(length_limited_lengths(&freq, 1), vec![(b'a', 1), (b'b', 2), (b'c', 2)]);
    assert_eq!(length_limited_lengths(&freq, 0), vec![(b'a', 1), (b'b', 2), (b'c', 2)]);
    let freq = FrequencyDistribution::from_bytes(b"abcdefghijklmnopq");
    let lengths = length_limited_lengths(&freq, 4);
    assert_eq!(lengths[0], (b'a', 5));
    assert_eq!(lengths[1], (b'b', 5));
    assert!(lengths[2..].iter().all(|&(_, l)| l == 4));
}

#[test]
fn length_limited_edge_cases() {
    let freq = FrequencyDistribution::from_bytes(b"");
    assert!(length_limited_lengths(&freq, 3).is_empty());
    let freq = FrequencyDistribution::from_bytes(b"a");
    assert_eq!(length_limited_lengths(&freq, 0), vec![(b'a', 0)]);
    let freq = FrequencyDistribution::from_bytes(b"aaaaaaab");
    assert_eq!(length_limited_lengths(&freq, usize::MAX), vec![(b'a', 1), (b'b', 1)]);
}

#[test]
fn length_limited_satisfies_kraft() {
    for data in [&b"hello world"[..], b"aaabbc", b"abcdefghijklmnopq", b"zzzzzzzzzzzzzzzzzzzzzzzzzza"] {
        for max_len in [1, 2, 3, 4, 8, 64] {
            let freq = FrequencyDistribution::from_bytes(data);
            let lengths: Vec<usize> = length_limited_lengths(&freq, max_len).iter().map(|&(_, l)| l).collect();
            assert!(verify(&lengths));
        }
    }
}
