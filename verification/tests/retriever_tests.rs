use omr_core::retriever::{decode_combined_payloads, round_scale_exec, sub_mul};
use omr_core::retrieval_params::RetrievalParams;
use omr_core::rng::prg_expand;
use omr_core::detector::index_plaintext_poly;
use omr_core::{OmrError, Payload, Retriever, PAYLOAD_LENGTH};

const Q: u64 = 1 << 20;
const DELTA: u64 = Q / 256;

fn payload_from_fn(f: impl Fn(usize) -> u8) -> Payload {
    let mut p = Payload::new();
    for i in 0..PAYLOAD_LENGTH {
        p.set(i, f(i));
    }
    p
}

/// Writes index `i` into the digest vector at the given segment and
/// bucket, scaled up to the ciphertext modulus.
fn write_bucket(digest: &mut [u64], pr: &RetrievalParams, seg: usize, bucket: usize, i: usize) {
    let off = seg * pr.slots_per_segment() + bucket * pr.slots_per_bucket();
    let mut v = i as u64;
    for k in 0..pr.slots_per_bucket() - 1 {
        digest[off + k] = (v % 256) * DELTA;
        v /= 256;
    }
    digest[off + pr.slots_per_bucket() - 1] = DELTA;
}

#[test]
fn round_scale_recovers_exact_multiples() {
    for v in [0u64, 1, 5, 128, 255] {
        assert_eq!(round_scale_exec(v * DELTA, Q, 256), v);
    }
}

#[test]
fn round_scale_rounds_half_up_and_wraps() {
    assert_eq!(round_scale_exec(Q - 1, Q, 256), 0);
    assert_eq!(round_scale_exec(DELTA / 2, Q, 256), 1);
    assert_eq!(round_scale_exec(DELTA / 2 - 1, Q, 256), 0);
}

#[test]
fn sub_mul_combines_modulo_q() {
    let cb: Vec<u64> = vec![10, 20];
    let ca: Vec<u64> = vec![3, 4];
    let sk: Vec<u64> = vec![5, 6];
    let mut dest: Vec<u64> = vec![0, 0];
    sub_mul(&cb, &ca, &sk, &mut dest, 97);
    assert_eq!(dest, vec![92, 93]);
}

#[test]
fn retrieve_indices_reads_occupied_buckets() {
    let pr = RetrievalParams::new(256, 12, 16, 2, 2, 3, 1);
    let mut retriever = Retriever::new(pr, Q);
    let mut digest = vec![0u64; 12];
    write_bucket(&mut digest, &pr, 0, 1, 5);
    write_bucket(&mut digest, &pr, 1, 0, 9);
    let res = retriever.retrieve_indices(&digest);
    assert_eq!(res, Ok(2));
    assert_eq!(retriever.retrieval_set(), &vec![5, 9]);
}

#[test]
fn retrieve_indices_fails_short_of_the_count() {
    let pr = RetrievalParams::new(256, 12, 16, 2, 2, 3, 1);
    let mut retriever = Retriever::new(pr, Q);
    let mut digest = vec![0u64; 12];
    write_bucket(&mut digest, &pr, 0, 0, 7);
    assert_eq!(retriever.retrieve_indices(&digest), Err(()));
    assert_eq!(retriever.retrieval_set(), &vec![7]);
}

#[test]
fn repeated_indices_count_once() {
    let pr = RetrievalParams::new(256, 12, 16, 1, 2, 3, 1);
    let mut retriever = Retriever::new(pr, Q);
    let mut digest = vec![0u64; 12];
    write_bucket(&mut digest, &pr, 0, 0, 7);
    write_bucket(&mut digest, &pr, 2, 1, 7);
    assert_eq!(retriever.retrieve_indices(&digest), Ok(1));
    assert_eq!(retriever.retrieval_set(), &vec![7]);
}

#[test]
fn equal_digests_decode_to_equal_sets() {
    let pr = RetrievalParams::new(256, 12, 16, 2, 2, 3, 1);
    let mut digest = vec![0u64; 12];
    write_bucket(&mut digest, &pr, 0, 1, 3);
    write_bucket(&mut digest, &pr, 2, 0, 14);
    let mut r1 = Retriever::new(pr, Q);
    let mut r2 = Retriever::new(pr, Q);
    let _ = r1.retrieve_indices(&digest);
    let _ = r2.retrieve_indices(&digest.clone());
    assert_eq!(r1.retrieval_set(), r2.retrieval_set());
}

#[test]
fn decode_combined_payloads_unpacks_blocks() {
    // Two combinations in one ciphertext of two payload-length blocks.
    let mut cipher = vec![0u64; 2 * PAYLOAD_LENGTH];
    for j in 0..PAYLOAD_LENGTH {
        cipher[j] = ((j % 256) as u64) * DELTA;
        cipher[PAYLOAD_LENGTH + j] = (((j + 100) % 256) as u64) * DELTA;
    }
    let decrypted = vec![cipher];
    let decoded = decode_combined_payloads(&decrypted, 2, 2, Q);
    assert_eq!(decoded.len(), 2);
    assert_eq!(decoded[0], payload_from_fn(|j| (j % 256) as u8));
    assert_eq!(decoded[1], payload_from_fn(|j| ((j + 100) % 256) as u8));
}

/// Builds the payload digests that encode the combined payloads of the
/// given pertinent payloads under the seed-derived weights.
fn build_payload_digests(
    pr: &RetrievalParams,
    indices: &[usize],
    payloads: &[Payload],
    seed: &[u8; 32],
) -> Vec<Vec<u64>> {
    let cc = pr.combination_count();
    let all = pr.all_payloads_count();
    let cmb = pr.cmb_count_per_cipher();
    let weights = prg_expand(seed, cc * all);
    let mut digests: Vec<Vec<u64>> = Vec::new();
    let mut row = 0;
    while row < cc {
        let mut cipher = vec![0u64; cmb * PAYLOAD_LENGTH];
        for block in 0..cmb {
            if row + block < cc {
                let r = row + block;
                let mut combined = Payload::new();
                for (k, &i) in indices.iter().enumerate() {
                    combined = combined.add(&payloads[k].scalar_mul(weights[r * all + i]));
                }
                for (j, &b) in combined.iter().iter().enumerate() {
                    cipher[block * PAYLOAD_LENGTH + j] = (b as u64) * DELTA;
                }
            }
        }
        digests.push(cipher);
        row += cmb;
    }
    digests
}

#[test]
fn session_round_trip_recovers_indices_and_payloads() {
    // A 16-message board with two pertinent messages: the index digest
    // and the combined payload digests decode back to exactly the
    // pertinent indices and their payloads.
    let pr = RetrievalParams::new(256, 12, 16, 2, 2, 3, 1);
    let indices = [3usize, 11];
    let x0 = payload_from_fn(|i| (i % 256) as u8);
    let x1 = payload_from_fn(|i| ((7 * i + 3) % 256) as u8);
    let payloads = [x0.duplicate(), x1.duplicate()];
    let mut digest = vec![0u64; 12];
    write_bucket(&mut digest, &pr, 0, 0, 3);
    write_bucket(&mut digest, &pr, 1, 1, 11);
    let index_digests = vec![digest];
    let mut recovered = None;
    for s in 0..16u8 {
        let seed = [s; 32];
        let payload_digests = build_payload_digests(&pr, &indices, &payloads, &seed);
        let mut retriever = Retriever::new(pr, Q);
        if let Ok(out) = retriever.retrieve(&index_digests, &payload_digests, &seed) {
            recovered = Some(out);
            break;
        }
    }
    let (idx, sol) = recovered.expect("some seed gives a solvable weight draw");
    assert_eq!(idx, vec![3, 11]);
    assert_eq!(sol.len(), 2);
    assert_eq!(sol[0], x0);
    assert_eq!(sol[1], x1);
}

#[test]
fn single_message_board_succeeds_with_one_digest() {
    // One message, one pertinent: the minimum digest count is one.
    let pr = RetrievalParams::new(256, 12, 1, 1, 2, 3, 1);
    let x0 = payload_from_fn(|i| ((i * 5) % 256) as u8);
    let mut digest = vec![0u64; 12];
    write_bucket(&mut digest, &pr, 0, 0, 0);
    let index_digests = vec![digest];
    let mut recovered = None;
    for s in 0..16u8 {
        let seed = [s; 32];
        let payload_digests =
            build_payload_digests(&pr, &[0usize], &[x0.duplicate()], &seed);
        let mut retriever = Retriever::new(pr, Q);
        if let Ok(out) = retriever.retrieve(&index_digests, &payload_digests, &seed) {
            recovered = Some(out);
            break;
        }
    }
    let (idx, sol) = recovered.expect("some seed gives a solvable weight draw");
    assert_eq!(idx, vec![0]);
    assert_eq!(sol, vec![x0]);
}

#[test]
fn empty_pertinent_set_returns_empty() {
    // One message, none pertinent: decode returns the empty set with no
    // error.
    let pr = RetrievalParams::new(256, 12, 1, 0, 2, 3, 1);
    let index_digests = vec![vec![0u64; 12]];
    let cc = pr.combination_count();
    let payload_digests: Vec<Vec<u64>> = (0..cc).map(|_| vec![0u64; PAYLOAD_LENGTH]).collect();
    let seed = [1u8; 32];
    let mut retriever = Retriever::new(pr, Q);
    let (idx, sol) = retriever.retrieve(&index_digests, &payload_digests, &seed).unwrap();
    assert!(idx.is_empty());
    assert!(sol.is_empty());
}

#[test]
fn surplus_recovered_indices_report_retrieval_failure() {
    // More recovered indices than the session was sized for is undefined
    // by design; the decode reports a failure rather than degrading.
    let pr = RetrievalParams::new(256, 12, 16, 2, 2, 3, 1);
    let mut digest = vec![0u64; 12];
    write_bucket(&mut digest, &pr, 0, 0, 1);
    write_bucket(&mut digest, &pr, 1, 0, 2);
    write_bucket(&mut digest, &pr, 2, 0, 3);
    let index_digests = vec![digest];
    let cc = pr.combination_count();
    let payload_digests: Vec<Vec<u64>> = (0..cc).map(|_| vec![0u64; PAYLOAD_LENGTH]).collect();
    let seed = [9u8; 32];
    let mut retriever = Retriever::new(pr, Q);
    let res = retriever.retrieve(&index_digests, &payload_digests, &seed);
    assert_eq!(res, Err(OmrError::RetrievalFailed));
    assert_eq!(retriever.retrieval_set(), &vec![1, 2, 3]);
}

#[test]
fn exhausted_digests_report_retrieval_failure() {
    // One pertinent message expected, but the only index digest decodes
    // to nothing: the decode reports a retrieval failure, never a silent
    // partial result.
    let pr = RetrievalParams::new(256, 12, 16, 1, 2, 3, 1);
    let index_digests = vec![vec![0u64; 12]];
    let cc = pr.combination_count();
    let payload_digests: Vec<Vec<u64>> = (0..cc).map(|_| vec![0u64; PAYLOAD_LENGTH]).collect();
    let seed = [5u8; 32];
    let mut retriever = Retriever::new(pr, Q);
    let res = retriever.retrieve(&index_digests, &payload_digests, &seed);
    assert_eq!(res, Err(OmrError::RetrievalFailed));
    assert!(retriever.retrieval_set().is_empty());
}

#[test]
fn second_digest_is_used_when_the_first_falls_short() {
    let pr = RetrievalParams::new(256, 12, 16, 2, 2, 3, 1);
    let x0 = payload_from_fn(|i| (i % 256) as u8);
    let x1 = payload_from_fn(|i| ((3 * i + 1) % 256) as u8);
    let payloads = [x0.duplicate(), x1.duplicate()];
    let indices = [4usize, 12];
    let mut first = vec![0u64; 12];
    write_bucket(&mut first, &pr, 0, 0, 4);
    let mut second = vec![0u64; 12];
    write_bucket(&mut second, &pr, 0, 1, 12);
    let index_digests = vec![first, second];
    let mut recovered = None;
    for s in 0..16u8 {
        let seed = [s; 32];
        let payload_digests = build_payload_digests(&pr, &indices, &payloads, &seed);
        let mut retriever = Retriever::new(pr, Q);
        if let Ok(out) = retriever.retrieve(&index_digests, &payload_digests, &seed) {
            recovered = Some(out);
            break;
        }
    }
    let (idx, sol) = recovered.expect("some seed gives a solvable weight draw");
    assert_eq!(idx, vec![4, 12]);
    assert_eq!(sol, vec![x0, x1]);
}

#[test]
fn encoded_index_polynomial_decodes_to_its_index() {
    // The encode side's plaintext polynomial, scaled up to the ciphertext
    // modulus, is read back by the decoder as exactly the encoded index.
    let pr = RetrievalParams::new(256, 12, 300, 1, 2, 2, 1);
    for &i in &[0usize, 4, 255, 256, 260, 299] {
        let buckets = vec![1usize, 0];
        let poly = index_plaintext_poly(i, &buckets, &pr);
        let digest: Vec<u64> = poly.iter().map(|&v| v * DELTA).collect();
        let mut retriever = Retriever::new(pr, Q);
        assert_eq!(retriever.retrieve_indices(&digest), Ok(1));
        assert_eq!(retriever.retrieval_set(), &vec![i]);
    }
}
