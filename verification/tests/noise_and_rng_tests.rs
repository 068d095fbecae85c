use omr_core::retriever::decode_combined_payloads_with_noise;
use omr_core::rng::{prg_expand, sample_bucket_index};
use omr_core::NoiseSigmaInfo;
use omr_core::PAYLOAD_LENGTH;

#[test]
fn prg_is_deterministic_in_the_seed() {
    let seed = [42u8; 32];
    let a = prg_expand(&seed, 100);
    let b = prg_expand(&seed, 100);
    assert_eq!(a.len(), 100);
    assert_eq!(a, b);
}

#[test]
fn prg_differs_between_seeds() {
    let a = prg_expand(&[1u8; 32], 64);
    let b = prg_expand(&[2u8; 32], 64);
    assert_ne!(a, b);
}

#[test]
fn prg_prefixes_agree() {
    let seed = [3u8; 32];
    let long = prg_expand(&seed, 192);
    let short = prg_expand(&seed, 64);
    assert_eq!(&long[..64], &short[..]);
}

#[test]
fn bucket_draws_stay_in_range() {
    for _ in 0..100 {
        assert!(sample_bucket_index(130) < 130);
    }
    assert_eq!(sample_bucket_index(1), 0);
}

#[test]
fn noise_tallies_band_counts_and_sums() {
    let mut info = NoiseSigmaInfo::new(10, 20, 30, 40, 50, 60, 1000, 4);
    info.check_noise_sigma(5);
    info.check_noise_sigma(15);
    info.check_noise_sigma(985);
    info.check_noise_sigma(500);
    assert_eq!(info.processed, 4);
    assert_eq!(info.one_sigma_count, 1);
    assert_eq!(info.two_sigma_count, 3);
    assert_eq!(info.three_sigma_count, 3);
    assert_eq!(info.six_sigma_count, 3);
    // 5 + 15 - 15 + 500
    assert_eq!(info.sum, 505);
    // 25 + 225 + 225 + 250000
    assert_eq!(info.sq_sum, 250475);
}

#[test]
fn noise_centers_above_half_the_modulus() {
    let mut info = NoiseSigmaInfo::new(1, 2, 3, 4, 5, 6, 100, 1);
    info.check_noise_sigma(99);
    assert_eq!(info.sum, -1);
    assert_eq!(info.sq_sum, 1);
    assert_eq!(info.one_sigma_count, 1);
}

#[test]
fn decode_with_noise_tallies_residues() {
    let q: u64 = 1 << 20;
    let delta = q / 256;
    // One combination whose coefficients sit exactly on multiples of the
    // scaling unit, except two slots nudged by 3 and by minus 2.
    let mut cipher = vec![0u64; PAYLOAD_LENGTH];
    for (j, c) in cipher.iter_mut().enumerate() {
        *c = ((j % 256) as u64) * delta;
    }
    cipher[0] += 3;
    cipher[1] -= 2;
    let decrypted = vec![cipher];
    let mut info = NoiseSigmaInfo::new(1, 2, 3, 4, 5, 6, q, PAYLOAD_LENGTH);
    let decoded = decode_combined_payloads_with_noise(&decrypted, 1, 1, &mut info);
    assert_eq!(decoded.len(), 1);
    for (j, &b) in decoded[0].iter().iter().enumerate() {
        assert_eq!(b, (j % 256) as u8);
    }
    assert_eq!(info.processed, PAYLOAD_LENGTH);
    assert_eq!(info.sum, 3 - 2);
    assert_eq!(info.sq_sum, 9 + 4);
    assert_eq!(info.two_sigma_count, PAYLOAD_LENGTH - 1);
    assert_eq!(info.three_sigma_count, PAYLOAD_LENGTH);
}
