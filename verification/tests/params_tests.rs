use omr_core::detector::ModulusValue;
use omr_core::params::SecretKeyKind;
use omr_core::retrieval_params::{index_digit_count, RetrievalParams};
use omr_core::OmrParameters;

#[test]
fn preset_parameters_hold_the_deployment_constants() {
    let p = OmrParameters::new();
    assert_eq!(p.clue_count(), 7);
    let clue = p.clue_params();
    assert_eq!(clue.dimension, 512);
    assert_eq!(clue.plain_modulus_value, 8);
    assert_eq!(clue.cipher_modulus_value, ModulusValue::PowerOf2(2048));
    assert_eq!(clue.secret_key_type, SecretKeyKind::Binary);
    assert_eq!(p.first_level_ring_dimension(), 1024);
    assert_eq!(p.first_level_blind_rotation_params().modulus, 134215681);
    assert_eq!(p.first_level_ring_secret_key_type(), SecretKeyKind::Ternary);
    assert_eq!(p.first_level_key_switching_params().output_cipher_dimension, 670);
    assert_eq!(p.first_level_key_switching_params().log_modulus, 27);
    assert_eq!(p.intermediate_lwe_plain_modulus_value(), 32);
    assert_eq!(
        p.intermediate_lwe_params().cipher_modulus_value,
        ModulusValue::PowerOf2(4096)
    );
    assert_eq!(p.second_level_ring_dimension(), 2048);
    assert_eq!(p.second_level_blind_rotation_params().modulus, 1125899906826241);
    assert_eq!(p.hom_trace_params().log_basis, 2);
    assert_eq!(p.output_plain_modulus_value(), 256);
}

#[test]
fn index_digit_count_is_minimal() {
    assert_eq!(index_digit_count(256, 1), 0);
    assert_eq!(index_digit_count(257, 1), 1);
    assert_eq!(index_digit_count(256, 2), 1);
    assert_eq!(index_digit_count(256, 256), 1);
    assert_eq!(index_digit_count(256, 257), 2);
    assert_eq!(index_digit_count(256, 65536), 2);
    assert_eq!(index_digit_count(256, 65537), 3);
    assert_eq!(index_digit_count(257, 257), 1);
    assert_eq!(index_digit_count(257, 258), 2);
}

#[test]
fn default_retrieval_layout() {
    // The deployment layout: byte modulus, a 2048-slot ring, a board of
    // 1024 messages sized for 50 pertinent ones, 130 buckets per segment
    // and 25 segments.
    let r = RetrievalParams::new(256, 2048, 1024, 50, 130, 25, 3);
    assert_eq!(r.index_modulus(), 256);
    assert_eq!(r.polynomial_size(), 2048);
    assert_eq!(r.bucket_count_per_segment(), 130);
    assert_eq!(r.slots_per_bucket(), 3);
    assert_eq!(r.slots_per_segment(), 390);
    assert_eq!(r.segment_count(), 25);
    assert_eq!(r.segment_per_cipher(), 5);
    assert_eq!(r.max_encode_indices_cipher_count(), 5);
    assert_eq!(r.pertinent_count(), 50);
    assert_eq!(r.combination_count(), 60);
    assert_eq!(r.cmb_count_per_cipher(), 3);
    assert_eq!(r.all_payloads_count(), 1024);
}

#[test]
fn non_power_of_two_modulus_takes_the_smaller_margin() {
    let r = RetrievalParams::new(257, 2048, 1024, 50, 130, 25, 3);
    assert_eq!(r.combination_count(), 55);
    assert_eq!(r.slots_per_bucket(), 3);
}

#[test]
fn single_message_board_layout() {
    // One message under a power-of-two modulus needs no digit slots:
    // a bucket is a lone sentinel.
    let r = RetrievalParams::new(256, 12, 1, 1, 2, 3, 1);
    assert_eq!(r.slots_per_bucket(), 1);
    assert_eq!(r.slots_per_segment(), 2);
    assert_eq!(r.segment_per_cipher(), 6);
}
