use entropy_code::kraft::{construct_canonical, equal_length_codes, is_complete, verify, verify_dary};

#[test]
fn test_kraft_empty() {
    assert!(verify(&[]));
    assert!(!is_complete(&[]));
}

#[test]
fn test_kraft_equal_2bit() {
    // 4 symbols with length 2: sum = 4 * 2^-2 = 1
    let lengths = vec![2, 2, 2, 2];
    assert!(verify(&lengths));
    assert!(is_complete(&lengths));
}

#[test]
fn test_kraft_huffman_like() {
    // a=1, b=2, c=3, d=3 => 0.5 + 0.25 + 0.125 + 0.125 = 1.0
    let lengths = vec![1, 2, 3, 3];
    assert!(verify(&lengths));
    assert!(is_complete(&lengths));
}

#[test]
fn test_kraft_violation() {
    // 3 symbols all with length 1: 3 * 0.5 = 1.5 > 1
    let lengths = vec![1, 1, 1];
    assert!(!verify(&lengths));
}

#[test]
fn test_equal_length_codes() {
    let codes = equal_length_codes(4);
    assert_eq!(codes, vec![2, 2, 2, 2]);
}

#[test]
fn test_construct_canonical() {
    let input = vec![(b'a', 1), (b'b', 2), (b'c', 3), (b'd', 3)];
    let codes = construct_canonical(&input).unwrap();
    assert_eq!(codes.len(), 4);
    // Verify prefix-free: no code is a prefix of another
    for i in 0..codes.len() {
        for j in 0..codes.len() {
            if i != j && codes[i].1.len() <= codes[j].1.len() {
                assert!(
                    codes[i].1 != codes[j].1[..codes[i].1.len()],
                    "Code {:?} is a prefix of {:?}",
                    codes[i],
                    codes[j]
                );
            }
        }
    }
}

#[test]
fn test_dary_kraft() {
    // Ternary code: 3 symbols with length 1: 3 * 3^-1 = 1
    let lengths = vec![1, 1, 1];
    assert!(verify_dary(&lengths, 3));
}

#[test]
fn kraft_is_exact_for_long_codes() {
    // 1/2 + 1/2 + 2^-200 exceeds one, however little.
    assert!(!verify(&[1, 1, 200]));
    assert!(verify(&[1, 200]));
    assert!(!is_complete(&[1, 200]));
    assert!(verify(&[usize::MAX, usize::MAX, 3]));
    assert!(!verify(&[0, usize::MAX]));
}

#[test]
fn kraft_length_zero() {
    assert!(verify(&[0]));
    assert!(is_complete(&[0]));
    assert!(!verify(&[0, 0]));
    assert!(!verify(&[0, 1]));
}

#[test]
fn kraft_incomplete_code() {
    assert!(verify(&[1, 2]));
    assert!(!is_complete(&[1, 2]));
    assert!(is_complete(&[2, 1, 2]));
}

#[test]
fn dary_kraft_small_alphabets() {
    assert!(verify_dary(&[], 7));
    assert!(verify_dary(&[5], 1));
    assert!(!verify_dary(&[2, 2], 1));
    assert!(verify_dary(&[0], 0));
    assert!(!verify_dary(&[1], 0));
    assert!(!verify_dary(&[0, 0], 0));
    assert!(verify_dary(&[1, 1, 2, 2, 2], 4));
    assert!(verify_dary(&[1, 1, 2, 2, 2], 3));
    assert!(!verify_dary(&[1, 1, 2, 2, 2, 2], 3));
}

#[test]
fn equal_length_codes_rounds_up() {
    assert!(equal_length_codes(0).is_empty());
    assert_eq!(equal_length_codes(1), vec![0]);
    assert_eq!(equal_length_codes(2), vec![1, 1]);
    assert_eq!(equal_length_codes(5), vec![3; 5]);
    assert_eq!(equal_length_codes(8), vec![3; 8]);
    assert_eq!(equal_length_codes(9), vec![4; 9]);
}

#[test]
fn equal_length_codes_satisfy_kraft() {
    for n in 1..40 {
        let lengths = equal_length_codes(n);
        assert!(verify(&lengths));
        assert_eq!(is_complete(&lengths), n.is_power_of_two());
    }
}

#[test]
fn canonical_codes_are_exact() {
    let input = vec![(b'a', 1), (b'b', 2), (b'c', 3), (b'd', 3)];
    let codes = construct_canonical(&input).unwrap();
    assert_eq!(
        codes,
        vec![(b'a', vec![0]), (b'b', vec![1, 0]), (b'c', vec![1, 1, 0]), (b'd', vec![1, 1, 1])]
    );
}

#[test]
fn canonical_codes_order_by_length_then_symbol() {
    let input = vec![(b'z', 2), (b'a', 2), (b'm', 1)];
    let codes = construct_canonical(&input).unwrap();
    assert_eq!(codes, vec![(b'm', vec![0]), (b'a', vec![1, 0]), (b'z', vec![1, 1])]);
}

#[test]
fn canonical_codes_beyond_64_bits() {
    let input = vec![(1u8, 100), (2u8, 1)];
    let codes = construct_canonical(&input).unwrap();
    assert_eq!(codes[0], (2u8, vec![0]));
    let mut long = vec![0u8; 100];
    long[0] = 1;
    assert_eq!(codes[1], (1u8, long));
}

#[test]
fn canonical_code_rejects_kraft_violation() {
    assert!(construct_canonical(&[(b'a', 1), (b'b', 1), (b'c', 1)]).is_none());
    assert_eq!(construct_canonical(&[]), Some(vec![]));
    assert_eq!(construct_canonical(&[(7, 0)]), Some(vec![(7, vec![])]));
}
