use omr_core::detector::{
    bootstrap_offset_scale, draw_bucket_indices, index_plaintext_poly, lwe_modulus_switch,
    ModulusValue,
};
use omr_core::retrieval_params::RetrievalParams;

#[test]
fn offset_scale_power_of_two() {
    // The deployment's intermediate instance: modulus 4096, plaintext 32,
    // seven clues: 7 * (4096 / 32).
    let m = ModulusValue::PowerOf2(4096);
    assert_eq!(bootstrap_offset_scale(&m, 5, 7), 896);
}

#[test]
fn offset_scale_native() {
    let m = ModulusValue::Native;
    assert_eq!(bootstrap_offset_scale(&m, 5, 7), 7 * (1u64 << 59));
}

#[test]
fn offset_scale_prime_rounds_half_up() {
    let m = ModulusValue::Prime(97);
    // 97 >> 4 is 6; rounding (6 + 1) / 2 gives 3; times seven clues.
    assert_eq!(bootstrap_offset_scale(&m, 5, 7), 21);
}

#[test]
fn modulus_switch_rounds_half_up() {
    let values: Vec<u64> = vec![0, 512, 1024, 1535, 2047];
    let switched = lwe_modulus_switch(&values, 2048, 1024);
    assert_eq!(switched, vec![0, 256, 512, 768, 0]);
}

#[test]
fn modulus_switch_of_exact_multiples_is_exact() {
    let values: Vec<u64> = vec![0, 2, 4, 6, 2046];
    let switched = lwe_modulus_switch(&values, 2048, 1024);
    assert_eq!(switched, vec![0, 1, 2, 3, 1023]);
}

#[test]
fn index_plaintext_poly_writes_digits_and_sentinel() {
    // Modulus 256, 16 messages: one digit slot and a sentinel per bucket,
    // two buckets per segment, three segments in a 12-slot polynomial.
    let pr = RetrievalParams::new(256, 12, 16, 1, 2, 3, 1);
    let buckets = vec![1usize, 0, 1];
    let poly = index_plaintext_poly(5, &buckets, &pr);
    assert_eq!(poly.len(), 12);
    // segment 0, bucket 1: slots 2..4
    assert_eq!(&poly[0..4], &[0, 0, 5, 1]);
    // segment 1, bucket 0: slots 4..6
    assert_eq!(&poly[4..8], &[5, 1, 0, 0]);
    // segment 2, bucket 1: slots 10..12
    assert_eq!(&poly[8..12], &[0, 0, 5, 1]);
}

#[test]
fn index_plaintext_poly_splits_digits() {
    // A board of 300 messages needs two base-256 digits.
    let pr = RetrievalParams::new(256, 12, 300, 1, 2, 2, 1);
    assert_eq!(pr.slots_per_bucket(), 3);
    assert_eq!(pr.slots_per_segment(), 6);
    assert_eq!(pr.segment_per_cipher(), 2);
    let buckets = vec![0usize, 1];
    let poly = index_plaintext_poly(260, &buckets, &pr);
    // 260 is 4 + 1 * 256.
    assert_eq!(&poly[0..6], &[4, 1, 1, 0, 0, 0]);
    assert_eq!(&poly[6..12], &[0, 0, 0, 4, 1, 1]);
}

#[test]
fn drawn_buckets_are_in_range() {
    let pr = RetrievalParams::new(256, 2048, 1024, 50, 130, 25, 3);
    let buckets = draw_bucket_indices(&pr);
    assert_eq!(buckets.len(), pr.segment_per_cipher());
    for &b in buckets.iter() {
        assert!(b < pr.bucket_count_per_segment());
    }
}

#[test]
fn modulus_switch_error_stays_within_half_a_unit() {
    // Switching from 2048 to 512 scales by 4: scaled back up, each value
    // is recovered to within half a unit, modulo the source modulus.
    let values: Vec<u64> = vec![0, 1, 2, 3, 100, 1023, 1025, 2045, 2046, 2047];
    let switched = lwe_modulus_switch(&values, 2048, 512);
    for (&v, &r) in values.iter().zip(switched.iter()) {
        let back = (r * 4) % 2048;
        let up = (back + 2048 - v) % 2048;
        let down = (v + 2048 - back) % 2048;
        assert!(up.min(down) <= 2, "value {} came back as {}", v, back);
    }
}
