use memsearch::entropy::{calculate_entropy, ENTROPY_SCALE};

fn bv(s: &str) -> Vec<u8> {
    s.as_bytes().to_vec()
}

#[test]
fn entropy_of_empty_buffer_is_zero() {
    assert_eq!(calculate_entropy(&Vec::new()), 0);
}

#[test]
fn entropy_of_repeated_byte_is_zero() {
    assert_eq!(calculate_entropy(&bv("AAAAAAAAAAAAAAAA")), 0);
    assert_eq!(calculate_entropy(&vec![0u8; 100]), 0);
    assert_eq!(calculate_entropy(&vec![0x7e; 3]), 0);
    assert_eq!(calculate_entropy(&bv("z")), 0);
}

#[test]
fn entropy_of_two_equal_symbols_is_one_bit() {
    // Alphabet of 2, equal frequency: exactly log2(2) = 1.0.
    assert_eq!(calculate_entropy(&bv("AB")), ENTROPY_SCALE);
    assert_eq!(calculate_entropy(&bv("AABB")), ENTROPY_SCALE);
    assert_eq!(calculate_entropy(&bv("ABABABAB")), ENTROPY_SCALE);
}

#[test]
fn entropy_of_four_equal_symbols_is_two_bits() {
    assert_eq!(calculate_entropy(&bv("ABCD")), 2 * ENTROPY_SCALE);
    assert_eq!(calculate_entropy(&bv("AABBCCDD")), 2 * ENTROPY_SCALE);
}

#[test]
fn entropy_of_256_distinct_bytes_is_eight_bits() {
    let all: Vec<u8> = (0u8..=255u8).collect();
    assert_eq!(calculate_entropy(&all), 8 * ENTROPY_SCALE);
}

#[test]
fn entropy_of_uniform_alphabet_is_log2_k_within_tolerance() {
    // Alphabet sizes that are no power of two: log2(k) within tolerance.
    let cases: [(&str, u32); 3] = [("ABC", 3), ("ABCABC", 3), ("ABCDEFG", 7)];
    for (text, k) in cases {
        let got = calculate_entropy(&bv(text)) as f64 / ENTROPY_SCALE as f64;
        let want = (k as f64).log2();
        assert!(
            (got - want).abs() < 1e-5,
            "entropy of {text:?}: got {got}, want {want}"
        );
    }
}

#[test]
fn entropy_of_all_printable_bytes_is_log2_95_within_tolerance() {
    let all: Vec<u8> = (0x20u8..=0x7eu8).collect();
    assert_eq!(all.len(), 95);
    let got = calculate_entropy(&all) as f64 / ENTROPY_SCALE as f64;
    let want = 95f64.log2();
    assert!((got - want).abs() < 1e-5, "got {got}, want {want}");
}

#[test]
fn entropy_of_skewed_distribution_matches_shannon_formula() {
    // "AAAB": p(A) = 3/4, p(B) = 1/4.
    let want = -(0.75f64 * 0.75f64.log2() + 0.25f64 * 0.25f64.log2());
    let got = calculate_entropy(&bv("AAAB")) as f64 / ENTROPY_SCALE as f64;
    assert!((got - want).abs() < 1e-5, "got {got}, want {want}");
}
