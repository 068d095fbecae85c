//! Randomness at the edge of the library.
//!
//! The payload digest's weight matrix is drawn from a stream cipher seeded
//! with the session seed, so the encoder and the decoder derive the same
//! weights from the same seed; bucket assignments are fresh uniform draws
//! whose values the contracts bound but do not fix.

use vstd::prelude::*;

use rand::{RngCore, SeedableRng};
use rand::Rng;

verus! {

/// The byte stream that the seeded generator produces: a function of the
/// seed and the length alone, identical on the encoding and the decoding
/// side.
pub uninterp spec fn prg_bytes(seed: Seq<u8>, len: nat) -> Seq<u8>;

/// Expands a 32-byte session seed into `len` pseudo-random bytes.
///
/// Relies on `rand::rngs::StdRng::from_seed` and `fill_bytes`: the
/// generator is a deterministic stream cipher, so the bytes depend on the
/// seed and the length alone.
#[verifier::external_body]
pub fn prg_expand(seed: &[u8; 32], len: usize) -> (r: Vec<u8>)
    ensures
        r@.len() == len,
        r@ == prg_bytes(seed@, len as nat),
{
    let mut rng = rand::rngs::StdRng::from_seed(*seed);
    let mut buf = vec![0u8; len];
    rng.fill_bytes(&mut buf);
    buf
}

/// Draws a uniformly random bucket index below `count`.
///
/// Relies on `rand::Rng::gen_range`: the draw lies in the half-open range
/// it is given; nothing more is assumed of it.
#[verifier::external_body]
pub fn sample_bucket_index(count: usize) -> (r: usize)
    requires
        count >= 1,
    ensures
        r < count,
{
    rand::thread_rng().gen_range(0..count)
}

} // verus!
