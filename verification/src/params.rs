//! Parameter profiles and the error type shared by the whole crate.

use vstd::prelude::*;

verus! {

/// The ring dimension shared by every profile.
pub const N: usize = 256;

/// The prime modulus shared by every profile.
pub const Q: u16 = 3329;

/// Why an operation refused to run.
#[derive(Clone, Copy, Debug, PartialEq, Eq, Structural)]
pub enum KemError {
    /// A parameter lies outside the set that the scheme defines.
    Configuration,
    /// The hash layer did not deliver what was asked of it.
    HashLayer,
}

/// An immutable record of the integers that select one security level.
#[derive(Clone, Copy, Debug, PartialEq, Eq, Structural)]
pub struct ParameterSet {
    pub n: usize,
    pub k: u32,
    pub q: u32,
    pub eta1: usize,
    pub eta2: usize,
    pub du: u32,
    pub dv: u32,
}

/// ML-KEM-512, for security level 1.
pub open spec fn ml_kem_512_spec() -> ParameterSet {
    ParameterSet { n: 256, k: 2, q: 3329, eta1: 3, eta2: 2, du: 10, dv: 4 }
}

/// ML-KEM-768, for security level 3.
pub open spec fn ml_kem_768_spec() -> ParameterSet {
    ParameterSet { n: 256, k: 3, q: 3329, eta1: 2, eta2: 2, du: 10, dv: 4 }
}

/// ML-KEM-1024, for security level 5.
pub open spec fn ml_kem_1024_spec() -> ParameterSet {
    ParameterSet { n: 256, k: 4, q: 3329, eta1: 2, eta2: 2, du: 11, dv: 5 }
}

#[verifier::when_used_as_spec(ml_kem_512_spec)]
pub fn ml_kem_512() -> (p: ParameterSet)
    ensures
        p == ml_kem_512_spec(),
{
    ParameterSet { n: 256, k: 2, q: 3329, eta1: 3, eta2: 2, du: 10, dv: 4 }
}

#[verifier::when_used_as_spec(ml_kem_768_spec)]
pub fn ml_kem_768() -> (p: ParameterSet)
    ensures
        p == ml_kem_768_spec(),
{
    ParameterSet { n: 256, k: 3, q: 3329, eta1: 2, eta2: 2, du: 10, dv: 4 }
}

#[verifier::when_used_as_spec(ml_kem_1024_spec)]
pub fn ml_kem_1024() -> (p: ParameterSet)
    ensures
        p == ml_kem_1024_spec(),
{
    ParameterSet { n: 256, k: 4, q: 3329, eta1: 2, eta2: 2, du: 11, dv: 5 }
}

/// The profile that `key_gen` uses: ML-KEM-768.
#[verifier::when_used_as_spec(ml_kem_768_spec)]
pub fn selected_parameter_set() -> (p: ParameterSet)
    ensures
        p == ml_kem_768_spec(),
{
    ml_kem_768()
}

/// The three profiles are valid.
pub proof fn lemma_profiles_valid()
    ensures
        ml_kem_512_spec().is_valid(),
        ml_kem_768_spec().is_valid(),
        ml_kem_1024_spec().is_valid(),
{
}

impl ParameterSet {
    /// Every field lies in the set that the scheme defines for it.
    pub open spec fn is_valid(self) -> bool {
        &&& self.n == N
        &&& self.q == Q
        &&& 2 <= self.k <= 4
        &&& 2 <= self.eta1 <= 3
        &&& self.eta2 == 2
        &&& 10 <= self.du <= 11
        &&& 4 <= self.dv <= 5
    }

    /// Accepts the profile exactly when every field is valid.
    pub fn validate(&self) -> (r: Result<(), KemError>)
        ensures
            r is Ok <==> self.is_valid(),
            r is Err ==> r == Err::<(), KemError>(KemError::Configuration),
    {
        if self.n == 256 && self.q == 3329 && 2 <= self.k && self.k <= 4 && 2 <= self.eta1
            && self.eta1 <= 3 && self.eta2 == 2 && 10 <= self.du && self.du <= 11 && 4 <= self.dv
            && self.dv <= 5 {
            Ok(())
        } else {
            Err(KemError::Configuration)
        }
    }
}

} // verus!
