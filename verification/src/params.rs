//! The fixed lattice parameters of one deployment.
//!
//! Two bootstrap layers run over two prime fields, fed by a small LWE
//! instance for the clues and an intermediate LWE instance between the
//! layers; the values here are the plain numbers the pipeline's
//! arithmetic reads.

use vstd::prelude::*;
use vstd::arithmetic::power2::is_pow2;

use crate::detector::ModulusValue;

verus! {

/// The form of a secret key's coefficients.
#[derive(Debug, Clone, Copy, PartialEq, Eq, Structural)]
pub enum SecretKeyKind {
    /// Coefficients drawn from zero and one.
    Binary,
    /// Coefficients drawn from minus one, zero and one.
    Ternary,
}

/// One LWE instance: dimension and the two moduli.
#[derive(Debug, Clone, Copy, PartialEq, Eq, Structural)]
pub struct LweParams {
    /// Secret key dimension.
    pub dimension: usize,
    /// Plaintext modulus.
    pub plain_modulus_value: u64,
    /// Ciphertext modulus.
    pub cipher_modulus_value: ModulusValue,
    /// Secret key form.
    pub secret_key_type: SecretKeyKind,
}

/// One gadget-decomposed RLWE instance: ring dimension, modulus and the
/// decomposition basis.
#[derive(Debug, Clone, Copy, PartialEq, Eq, Structural)]
pub struct GadgetParams {
    /// Ring dimension.
    pub dimension: usize,
    /// Ring modulus.
    pub modulus: u64,
    /// Secret key form.
    pub secret_key_type: SecretKeyKind,
    /// Base-two logarithm of the decomposition basis.
    pub log_basis: u32,
    /// Number of decomposition digits kept, if truncated.
    pub decompose_length: Option<u32>,
}

/// The key-switching step between the first ring and the intermediate
/// LWE instance.
#[derive(Debug, Clone, Copy, PartialEq, Eq, Structural)]
pub struct KeySwitchingParams {
    /// Dimension of the incoming ciphertext.
    pub input_cipher_dimension: usize,
    /// Dimension of the outgoing ciphertext.
    pub output_cipher_dimension: usize,
    /// Bit length of the modulus.
    pub log_modulus: u32,
    /// Base-two logarithm of the decomposition basis.
    pub log_basis: u32,
}

/// The full parameter set of one deployment.
#[derive(Debug, Clone, Copy, PartialEq, Eq, Structural)]
pub struct OmrParameters {
    /// The clue LWE instance.
    pub clue_params: LweParams,
    /// Number of clue slots each sender encrypts.
    pub clue_count: usize,
    /// The first bootstrap layer.
    pub first_level_blind_rotation_params: GadgetParams,
    /// The switch from the first ring to the intermediate instance.
    pub first_level_key_switching_params: KeySwitchingParams,
    /// The intermediate LWE instance.
    pub intermediate_lwe_params: LweParams,
    /// The second bootstrap layer.
    pub second_level_blind_rotation_params: GadgetParams,
    /// The homomorphic trace over the second ring.
    pub hom_trace_params: GadgetParams,
    /// The final output plaintext modulus.
    pub output_plain_modulus_value: u64,
}

impl OmrParameters {
    /// What the pipeline's arithmetic needs of a parameter set.
    pub open spec fn wf(&self) -> bool {
        &&& self.clue_count >= 1
        &&& 4 * self.clue_count <= self.intermediate_lwe_params.plain_modulus_value
        &&& is_pow2(self.clue_params.plain_modulus_value as int)
        &&& is_pow2(self.intermediate_lwe_params.plain_modulus_value as int)
        &&& is_pow2(self.output_plain_modulus_value as int)
        &&& self.output_plain_modulus_value >= 2
        &&& self.intermediate_lwe_params.plain_modulus_value >= 2
        &&& self.clue_params.plain_modulus_value
            <= self.first_level_blind_rotation_params.dimension
        &&& self.first_level_blind_rotation_params.dimension as int
            % self.clue_params.plain_modulus_value as int == 0
        &&& self.intermediate_lwe_params.plain_modulus_value
            <= self.second_level_blind_rotation_params.dimension
        &&& self.second_level_blind_rotation_params.dimension as int
            % self.intermediate_lwe_params.plain_modulus_value as int == 0
        &&& self.first_level_blind_rotation_params.modulus >= 2
        &&& self.second_level_blind_rotation_params.modulus >= 2
        &&& self.intermediate_lwe_params.plain_modulus_value as nat
            <= 2 * self.first_level_blind_rotation_params.modulus as nat
        &&& self.output_plain_modulus_value as nat <= 2
            * self.second_level_blind_rotation_params.modulus as nat
        &&& self.second_level_blind_rotation_params.modulus >= 257
        &&& self.output_plain_modulus_value <= u32::MAX
    }

    /// The preset parameter set: a 27-bit field under a 1024 ring for the
    /// first layer, a 50-bit field under a 2048 ring for the second,
    /// seven clue slots and byte-sized output.
    pub fn new() -> (r: OmrParameters)
        ensures
            r.wf(),
            r.clue_params.dimension == 512,
            r.clue_params.plain_modulus_value == 8,
            r.clue_params.cipher_modulus_value == ModulusValue::PowerOf2(2048),
            r.clue_params.secret_key_type == SecretKeyKind::Binary,
            r.clue_count == 7,
            r.first_level_blind_rotation_params.dimension == 1024,
            r.first_level_blind_rotation_params.modulus == 134215681,
            r.first_level_blind_rotation_params.secret_key_type == SecretKeyKind::Ternary,
            r.first_level_blind_rotation_params.log_basis == 5,
            r.first_level_blind_rotation_params.decompose_length == Some(4u32),
            r.first_level_key_switching_params.input_cipher_dimension == 1024,
            r.first_level_key_switching_params.output_cipher_dimension == 670,
            r.first_level_key_switching_params.log_modulus == 27,
            r.first_level_key_switching_params.log_basis == 1,
            r.intermediate_lwe_params.dimension == 670,
            r.intermediate_lwe_params.plain_modulus_value == 32,
            r.intermediate_lwe_params.cipher_modulus_value == ModulusValue::PowerOf2(4096),
            r.intermediate_lwe_params.secret_key_type == SecretKeyKind::Binary,
            r.second_level_blind_rotation_params.dimension == 2048,
            r.second_level_blind_rotation_params.modulus == 1125899906826241,
            r.second_level_blind_rotation_params.secret_key_type == SecretKeyKind::Ternary,
            r.second_level_blind_rotation_params.log_basis == 7,
            r.second_level_blind_rotation_params.decompose_length == Some(6u32),
            r.hom_trace_params.dimension == 2048,
            r.hom_trace_params.modulus == 1125899906826241,
            r.hom_trace_params.log_basis == 2,
            r.hom_trace_params.decompose_length == None::<u32>,
            r.output_plain_modulus_value == 256,
    {
        let clue_params = LweParams {
            dimension: 512,
            plain_modulus_value: 8,
            cipher_modulus_value: ModulusValue::PowerOf2(2048),
            secret_key_type: SecretKeyKind::Binary,
        };
        let first_level_blind_rotation_params = GadgetParams {
            dimension: 1024,
            modulus: 134215681,
            secret_key_type: SecretKeyKind::Ternary,
            log_basis: 5,
            decompose_length: Some(4),
        };
        let first_level_key_switching_params = KeySwitchingParams {
            input_cipher_dimension: 1024,
            output_cipher_dimension: 670,
            log_modulus: 27,
            log_basis: 1,
        };
        let intermediate_lwe_params = LweParams {
            dimension: 670,
            plain_modulus_value: 32,
            cipher_modulus_value: ModulusValue::PowerOf2(4096),
            secret_key_type: SecretKeyKind::Binary,
        };
        let second_level_blind_rotation_params = GadgetParams {
            dimension: 2048,
            modulus: 1125899906826241,
            secret_key_type: SecretKeyKind::Ternary,
            log_basis: 7,
            decompose_length: Some(6),
        };
        let hom_trace_params = GadgetParams {
            dimension: 2048,
            modulus: 1125899906826241,
            secret_key_type: SecretKeyKind::Ternary,
            log_basis: 2,
            decompose_length: None,
        };
        let r = OmrParameters {
            clue_params,
            clue_count: 7,
            first_level_blind_rotation_params,
            first_level_key_switching_params,
            intermediate_lwe_params,
            second_level_blind_rotation_params,
            hom_trace_params,
            output_plain_modulus_value: 256,
        };
        proof {
            reveal_with_fuel(is_pow2, 10);
            assert(is_pow2(1int));
            assert(is_pow2(2int));
            assert(is_pow2(4int));
            assert(is_pow2(8int));
            assert(is_pow2(16int));
            assert(is_pow2(32int));
            assert(is_pow2(64int));
            assert(is_pow2(128int));
            assert(is_pow2(256int));
        }
        r
    }

    /// The number of clue slots each sender encrypts.
    pub fn clue_count(&self) -> (r: usize)
        ensures
            r == self.clue_count,
    {
        self.clue_count
    }

    /// The clue LWE instance.
    pub fn clue_params(&self) -> (r: LweParams)
        ensures
            r == self.clue_params,
    {
        self.clue_params
    }

    /// The clue ciphertext modulus.
    pub fn clue_cipher_modulus_value(&self) -> (r: ModulusValue)
        ensures
            r == self.clue_params.cipher_modulus_value,
    {
        self.clue_params.cipher_modulus_value
    }

    /// The clue plaintext modulus.
    pub fn clue_plain_modulus_value(&self) -> (r: u64)
        ensures
            r == self.clue_params.plain_modulus_value,
    {
        self.clue_params.plain_modulus_value
    }

    /// The first bootstrap layer's parameters.
    pub fn first_level_blind_rotation_params(&self) -> (r: GadgetParams)
        ensures
            r == self.first_level_blind_rotation_params,
    {
        self.first_level_blind_rotation_params
    }

    /// The first ring's dimension.
    pub fn first_level_ring_dimension(&self) -> (r: usize)
        ensures
            r == self.first_level_blind_rotation_params.dimension,
    {
        self.first_level_blind_rotation_params.dimension
    }

    /// The first ring's secret key form.
    pub fn first_level_ring_secret_key_type(&self) -> (r: SecretKeyKind)
        ensures
            r == self.first_level_blind_rotation_params.secret_key_type,
    {
        self.first_level_blind_rotation_params.secret_key_type
    }

    /// The key-switching parameters between the layers.
    pub fn first_level_key_switching_params(&self) -> (r: KeySwitchingParams)
        ensures
            r == self.first_level_key_switching_params,
    {
        self.first_level_key_switching_params
    }

    /// The intermediate LWE instance.
    pub fn intermediate_lwe_params(&self) -> (r: LweParams)
        ensures
            r == self.intermediate_lwe_params,
    {
        self.intermediate_lwe_params
    }

    /// The intermediate plaintext modulus.
    pub fn intermediate_lwe_plain_modulus_value(&self) -> (r: u64)
        ensures
            r == self.intermediate_lwe_params.plain_modulus_value,
    {
        self.intermediate_lwe_params.plain_modulus_value
    }

    /// The second bootstrap layer's parameters.
    pub fn second_level_blind_rotation_params(&self) -> (r: GadgetParams)
        ensures
            r == self.second_level_blind_rotation_params,
    {
        self.second_level_blind_rotation_params
    }

    /// The second ring's dimension.
    pub fn second_level_ring_dimension(&self) -> (r: usize)
        ensures
            r == self.second_level_blind_rotation_params.dimension,
    {
        self.second_level_blind_rotation_params.dimension
    }

    /// The second ring's secret key form.
    pub fn second_level_ring_secret_key_type(&self) -> (r: SecretKeyKind)
        ensures
            r == self.second_level_blind_rotation_params.secret_key_type,
    {
        self.second_level_blind_rotation_params.secret_key_type
    }

    /// The homomorphic trace's parameters.
    pub fn hom_trace_params(&self) -> (r: GadgetParams)
        ensures
            r == self.hom_trace_params,
    {
        self.hom_trace_params
    }

    /// The final output plaintext modulus.
    pub fn output_plain_modulus_value(&self) -> (r: u64)
        ensures
            r == self.output_plain_modulus_value,
    {
        self.output_plain_modulus_value
    }
}

} // verus!
