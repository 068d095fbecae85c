//! Core logic for oblivious message retrieval: a detector scans encrypted
//! clues for the messages pertinent to one receiver and packs their indices
//! and payloads into a compact digest; the retriever decodes the digest by
//! rounding ciphertext coefficients to a small modulus and solving a linear
//! system over that modulus.

pub mod detector;
mod error;
pub mod lut;
pub mod matrix;
pub mod noise;
pub mod params;
mod payload;
pub mod retrieval_params;
pub mod retriever;
pub mod rng;

pub use error::OmrError;
pub use matrix::solve_matrix_mod_256;
pub use noise::NoiseSigmaInfo;
pub use params::OmrParameters;
pub use payload::Payload;
pub use payload::PAYLOAD_LENGTH;
pub use retrieval_params::RetrievalParams;
pub use retriever::Retriever;
