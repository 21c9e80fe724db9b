//! The algebraic and sampling core of ML-KEM: ring arithmetic modulo 3329,
//! the number-theoretic transform, the two samplers and K-PKE key generation.

pub mod algebraic;
pub mod auxiliary;
pub mod bytevec;
pub mod cryptographic;
pub mod equality;
pub mod kpke;
pub mod ntt_laws;
pub mod params;
pub mod polynomial;

pub use params::{
    ml_kem_1024, ml_kem_512, ml_kem_768, selected_parameter_set, KemError, ParameterSet,
};
