use entropy_code::arithmetic::{simple_encode, ArithmeticDecoder, ArithmeticEncoder};

#[test]
fn test_encoder_empty() {
    let encoder = ArithmeticEncoder::new();
    let bits = encoder.finish();
    assert!(!bits.is_empty());
}

#[test]
fn test_simple_encode() {
    let data = b"aab";
    let bits = simple_encode(data);
    assert!(!bits.is_empty());
}

#[test]
fn test_encoder_single_symbol() {
    let data = b"aaa";
    let bits = simple_encode(data);
    // Single repeated symbol should compress very well
    assert!(bits.len() < 64);
}

#[test]
fn test_decoder_roundtrip() {
    // Simple roundtrip: encode and verify encode produces valid output
    let data = b"aab";
    let bits = simple_encode(data);
    assert!(!bits.is_empty());

    // Verify encoding is deterministic
    let bits2 = simple_encode(data);
    assert_eq!(bits, bits2);
}

#[test]
fn test_repeated_pattern() {
    let data = b"ababababab";
    let bits = simple_encode(data);
    assert!(!bits.is_empty());
}

#[test]
fn test_encoder_produces_bits() {
    let data = b"the quick brown fox";
    let bits = simple_encode(data);
    assert!(bits.len() > 0);
    // Arithmetic coding should be reasonable
    assert!(bits.len() < data.len() * 16);
}

#[test]
fn fresh_encoder_finishes_with_two_bits() {
    // The whole interval: one deferred bit is added and the low quarter is chosen.
    assert_eq!(ArithmeticEncoder::new().finish(), vec![0, 1]);
    assert_eq!(ArithmeticEncoder::default().finish(), vec![0, 1]);
}

#[test]
fn encode_lower_half_emits_zero() {
    let mut encoder = ArithmeticEncoder::new();
    encoder.encode_symbol(0, 1, 2);
    assert_eq!(encoder.finish(), vec![0, 0, 1]);
}

#[test]
fn encode_upper_half_emits_one() {
    let mut encoder = ArithmeticEncoder::new();
    encoder.encode_symbol(1, 2, 2);
    assert_eq!(encoder.finish(), vec![1, 0, 1]);
}

#[test]
fn encode_middle_half_defers_bits() {
    // [1/4, 3/4) is rescaled once without output; finishing resolves it.
    let mut encoder = ArithmeticEncoder::new();
    encoder.encode_symbol(1, 3, 4);
    assert_eq!(encoder.finish(), vec![0, 1, 1]);
}

#[test]
fn simple_encode_empty_input() {
    assert!(simple_encode(b"").is_empty());
}

#[test]
fn simple_encode_outputs_binary_digits() {
    for data in [&b"a"[..], b"hello world", b"the quick brown fox", b"\x00\xff\x00\xff"] {
        let bits = simple_encode(data);
        assert!(bits.len() >= 2);
        assert!(bits.iter().all(|&b| b <= 1));
    }
}

fn smoothed_cumulative(data: &[u8]) -> Vec<u64> {
    let mut counts = vec![1u64; 256];
    for &b in data {
        counts[b as usize] += 1;
    }
    let mut cum = vec![0u64; 257];
    for i in 0..256 {
        cum[i + 1] = cum[i] + counts[i];
    }
    cum
}

fn bits_to_fraction_numerator(bits: &[u8], take: usize) -> u128 {
    bits.iter().take(take).fold(0u128, |acc, &b| acc * 2 + b as u128)
}

#[test]
fn simple_encode_output_lies_in_first_symbol_interval() {
    // The output, as a binary fraction, lies in the first symbol's share of [0, 1).
    let data = b"hello world";
    let bits = simple_encode(data);
    let cum = smoothed_cumulative(data);
    let total = cum[256] as u128;
    let first = data[0] as usize;
    let n = bits.len().min(100);
    let value = bits_to_fraction_numerator(&bits, n);
    let lo = cum[first] as u128;
    let hi = cum[first + 1] as u128;
    // lo / total <= value / 2^n < hi / total (up to 32-bit rounding of the coder)
    let scale = 1u128 << n;
    assert!(value * total + scale >= lo * scale);
    assert!(value * total <= hi * scale);
}

#[test]
fn decoder_recovers_encoded_symbols() {
    let data = b"the quick brown fox jumps over the lazy dog";
    let bits = simple_encode(data);
    assert!(bits.len() >= 32);
    let cum = smoothed_cumulative(data);
    let total = cum[256];
    let mut decoder = ArithmeticDecoder::new(&bits);
    let mut decoded = Vec::new();
    for _ in 0..data.len() {
        let v = decoder.get_scaled_value(total);
        let sym = (0..256).find(|&s| cum[s] <= v && v < cum[s + 1]).unwrap();
        decoder.decode_symbol(cum[sym], cum[sym + 1], total, &bits);
        decoded.push(sym as u8);
    }
    assert_eq!(&decoded[..], &data[..]);
}

#[test]
fn decoder_reads_first_bits_into_code() {
    // Fewer than 32 bits are read as if padded with zeros.
    let decoder = ArithmeticDecoder::new(&[1, 0, 1]);
    assert_eq!(decoder.get_scaled_value(8), 5);
    assert_eq!(decoder.get_scaled_value(2), 1);
    let mut padded = vec![1u8, 0, 1];
    padded.resize(32, 0);
    assert_eq!(ArithmeticDecoder::new(&padded).get_scaled_value(1 << 30), decoder.get_scaled_value(1 << 30));
    let decoder = ArithmeticDecoder::new(&[1; 40]);
    // 32 ones: the code sits at the top of the interval.
    assert_eq!(decoder.get_scaled_value(2), 1);
}

#[test]
fn roundtrip_with_own_table() {
    // Three symbols with cumulative ranges [0, 5), [5, 7), [7, 10).
    let cum: [u64; 4] = [0, 5, 7, 10];
    let total = 10;
    let message: Vec<usize> = [0, 2, 1, 0, 0, 2, 2, 1, 0, 1, 2, 0, 0, 0, 1, 2, 2, 0, 1, 0].repeat(3);
    let mut encoder = ArithmeticEncoder::new();
    for &s in &message {
        encoder.encode_symbol(cum[s], cum[s + 1], total);
    }
    let bits = encoder.finish();
    assert!(bits.len() >= 32);
    let mut decoder = ArithmeticDecoder::new(&bits);
    for &s in &message {
        let v = decoder.get_scaled_value(total);
        assert!(v < total);
        let found = (0..3).find(|&t| cum[t] <= v && v < cum[t + 1]).unwrap();
        assert_eq!(found, s);
        decoder.decode_symbol(cum[found], cum[found + 1], total, &bits);
    }
}

#[test]
fn short_output_roundtrip() {
    // [0, 1) then [1, 2) of 2 encodes to four bits.
    let mut encoder = ArithmeticEncoder::new();
    encoder.encode_symbol(0, 1, 2);
    encoder.encode_symbol(1, 2, 2);
    let bits = encoder.finish();
    assert_eq!(bits, vec![0, 1, 0, 1]);
    let mut decoder = ArithmeticDecoder::new(&bits);
    assert_eq!(decoder.get_scaled_value(2), 0);
    decoder.decode_symbol(0, 1, 2, &bits);
    assert_eq!(decoder.get_scaled_value(2), 1);
}

#[test]
fn short_simple_encode_roundtrip() {
    for data in [&b"aaa"[..], b"aab", b"a", b"ab"] {
        let bits = simple_encode(data);
        assert!(bits.len() < 32);
        let cum = smoothed_cumulative(data);
        let total = cum[256];
        let mut decoder = ArithmeticDecoder::new(&bits);
        let mut decoded = Vec::new();
        for _ in 0..data.len() {
            let v = decoder.get_scaled_value(total);
            let sym = (0..256).find(|&s| cum[s] <= v && v < cum[s + 1]).unwrap();
            decoder.decode_symbol(cum[sym], cum[sym + 1], total, &bits);
            decoded.push(sym as u8);
        }
        assert_eq!(&decoded[..], data);
    }
}
