//! Key generation of the K-PKE scheme.

use crate::algebraic::{
    ntt, ntt_spec, pointwise_mul_ntt, pointwise_product, sample_ntt, sample_ntt_spec,
    sample_ntt_terminates, sample_ntt_input, sample_ntt_yields, sample_poly_cbd_eta,
    sample_poly_cbd_spec, xof_stream, yields_sample,
};
use crate::cryptographic::{g, prf_eta, prf_spec, sha3_512_digest, split_digest};
use crate::params::{selected_parameter_set, KemError, ParameterSet};
use crate::polynomial::{ring_sum, Poly16, Polynomial};
use vstd::prelude::*;

verus! {

/// What key generation leaves behind: the seeds, the counter, the matrix,
/// and the secret, the noise and the public vector, all in the transformed
/// domain.
#[derive(Debug)]
pub struct KeyState {
    /// The seed that everything else is derived from.
    pub d: [u8; 32],
    /// The number of calls of the pseudorandom function that were made.
    pub counter: u8,
    /// The public seed, from which the matrix is expanded.
    pub rho: [u8; 32],
    /// The private seed, from which secret and noise are sampled.
    pub sigma: [u8; 32],
    /// The matrix, row by row.
    pub a_hat: Vec<Vec<Poly16>>,
    /// The secret vector.
    pub s_hat: Vec<Poly16>,
    /// The noise vector.
    pub e_hat: Vec<Poly16>,
    /// The public vector: the matrix times the secret, plus the noise.
    pub t_hat: Vec<Poly16>,
}

/// The public and the private seed that a seed `d` gives.
pub open spec fn key_seeds(d: Seq<u8>) -> (Seq<u8>, Seq<u8>) {
    split_digest(sha3_512_digest(d))
}

/// The entry of the matrix in row `i` and column `j`. The column index is
/// hashed before the row index.
pub open spec fn matrix_entry(rho: Seq<u8>, i: int, j: int) -> Seq<int> {
    sample_ntt_spec(rho, j as u8, i as u8)
}

/// Whether the rejection sampler ends for the entry in row `i` and column
/// `j`.
pub open spec fn matrix_entry_terminates(rho: Seq<u8>, i: int, j: int) -> bool {
    sample_ntt_terminates(rho, j as u8, i as u8)
}

/// Whether the first `max_blocks` blocks of the stream for the entry in row
/// `i` and column `j` yield 256 candidates.
pub open spec fn matrix_entry_yields(rho: Seq<u8>, i: int, j: int, max_blocks: nat) -> bool {
    yields_sample(xof_stream(sample_ntt_input(rho, j as u8, i as u8)), max_blocks)
}

/// The transformed noise polynomial that the private seed gives for a value
/// of the counter.
pub open spec fn noise_poly(sigma: Seq<u8>, eta: nat, counter: int) -> Seq<int> {
    ntt_spec(sample_poly_cbd_spec(eta, prf_spec(eta, sigma, counter as u8)))
}

/// The sum of the products of the first `n` entries of `row` and `v`.
pub open spec fn dot_product(row: Seq<Polynomial>, v: Seq<Polynomial>, n: nat) -> Seq<int>
    decreases n,
{
    if n == 0 {
        Seq::new(256, |i: int| 0int)
    } else {
        ring_sum(
            dot_product(row, v, (n - 1) as nat),
            pointwise_product(row[n - 1]@, v[n - 1]@),
        )
    }
}

/// Whether the rejection sampler ends for every entry of the matrix of
/// dimension `k` that the public seed gives.
pub open spec fn matrix_terminates(rho: Seq<u8>, k: nat) -> bool {
    forall|i: int, j: int| 0 <= i < k && 0 <= j < k ==> #[trigger] matrix_entry_terminates(rho, i, j)
}

/// Whether, for every entry of the matrix of dimension `k`, the first
/// `max_blocks` blocks of its stream yield 256 candidates.
pub open spec fn matrix_yields_within(rho: Seq<u8>, k: nat, max_blocks: nat) -> bool {
    forall|i: int, j: int|
        0 <= i < k && 0 <= j < k ==> #[trigger] matrix_entry_yields(rho, i, j, max_blocks)
}

/// Whether the rejection sampler ends for every entry of the matrix of
/// dimension `k` that the seed `d` gives.
pub open spec fn key_gen_terminates(k: nat, d: Seq<u8>) -> bool {
    matrix_terminates(key_seeds(d).0, k)
}

/// Whether, for every entry of the matrix that the seed `d` gives, the first
/// `max_blocks` blocks of its stream yield 256 candidates.
pub open spec fn key_gen_yields(k: nat, d: Seq<u8>, max_blocks: nat) -> bool {
    matrix_yields_within(key_seeds(d).0, k, max_blocks)
}

/// A vector of `k` canonical polynomials.
pub open spec fn is_ring_vector(v: Seq<Polynomial>, k: nat) -> bool {
    &&& v.len() == k
    &&& forall|i: int| 0 <= i < k ==> (#[trigger] v[i]).is_canonical()
}

impl KeyState {
    /// The state is the one that the seed `d` gives for dimension `k` and
    /// noise parameter `eta`.
    pub open spec fn is_key_state_for(&self, k: nat, eta: nat, d: Seq<u8>) -> bool {
        &&& self.d@ == d
        &&& self.counter == 2 * k
        &&& self.rho@ == key_seeds(d).0
        &&& self.sigma@ == key_seeds(d).1
        &&& self.a_hat@.len() == k
        &&& forall|i: int| 0 <= i < k ==> (#[trigger] self.a_hat@[i])@.len() == k
        &&& forall|i: int, j: int|
            0 <= i < k && 0 <= j < k ==> (#[trigger] self.a_hat@[i]@[j])@ == matrix_entry(
                self.rho@,
                i,
                j,
            )
        &&& self.s_hat@.len() == k
        &&& forall|i: int|
            0 <= i < k ==> (#[trigger] self.s_hat@[i])@ == noise_poly(self.sigma@, eta, i)
        &&& self.e_hat@.len() == k
        &&& forall|i: int|
            0 <= i < k ==> (#[trigger] self.e_hat@[i])@ == noise_poly(self.sigma@, eta, k + i)
        &&& self.t_hat@.len() == k
        &&& forall|i: int|
            0 <= i < k ==> (#[trigger] self.t_hat@[i])@ == ring_sum(
                dot_product(self.a_hat@[i]@, self.s_hat@, k),
                self.e_hat@[i]@,
            )
    }

    /// Every polynomial of the state is canonical.
    pub open spec fn is_canonical(&self) -> bool {
        &&& forall|i: int|
            0 <= i < self.a_hat@.len() ==> is_ring_vector(
                (#[trigger] self.a_hat@[i])@,
                self.a_hat@[i]@.len(),
            )
        &&& is_ring_vector(self.s_hat@, self.s_hat@.len())
        &&& is_ring_vector(self.e_hat@, self.e_hat@.len())
        &&& is_ring_vector(self.t_hat@, self.t_hat@.len())
    }
}

/// Expands the public seed into the matrix of dimension `k`.
pub fn sample_matrix(rho: &[u8; 32], k: usize) -> (a_hat: Vec<Vec<Poly16>>)
    requires
        k <= 255,
        matrix_terminates(rho@, k as nat),
    ensures
        a_hat@.len() == k,
        forall|i: int| 0 <= i < k ==> is_ring_vector((#[trigger] a_hat@[i])@, k as nat),
        forall|i: int, j: int|
            0 <= i < k && 0 <= j < k ==> (#[trigger] a_hat@[i]@[j])@ == matrix_entry(rho@, i, j),
{
    let mut a_hat: Vec<Vec<Poly16>> = Vec::new();
    let mut i: usize = 0;
    while i < k
        invariant
            i <= k <= 255,
            a_hat@.len() == i,
            matrix_terminates(rho@, k as nat),
            forall|r: int| 0 <= r < i ==> is_ring_vector((#[trigger] a_hat@[r])@, k as nat),
            forall|r: int, c: int|
                0 <= r < i && 0 <= c < k ==> (#[trigger] a_hat@[r]@[c])@ == matrix_entry(
                    rho@,
                    r,
                    c,
                ),
        decreases k - i,
    {
        let mut row: Vec<Poly16> = Vec::new();
        let mut j: usize = 0;
        while j < k
            invariant
                i < k <= 255,
                j <= k,
                row@.len() == j,
                matrix_terminates(rho@, k as nat),
                forall|c: int| 0 <= c < j ==> (#[trigger] row@[c]).is_canonical(),
                forall|c: int| 0 <= c < j ==> (#[trigger] row@[c])@ == matrix_entry(rho@, i as int, c),
            decreases k - j,
        {
            assert(matrix_entry_terminates(rho@, i as int, j as int));
            let entry = sample_ntt(*rho, j as u8, i as u8);
            row.push(entry);
            j += 1;
        }
        a_hat.push(row);
        i += 1;
    }
    a_hat
}

/// Samples `k` noise polynomials from the private seed and transforms them,
/// stepping the counter once for each.
pub fn sample_noise_vector(sigma: &[u8; 32], eta: usize, k: usize, counter: &mut u8) -> (v: Vec<
    Poly16,
>)
    requires
        eta == 2 || eta == 3,
        *old(counter) + k <= 255,
    ensures
        *final(counter) == *old(counter) + k,
        is_ring_vector(v@, k as nat),
        forall|i: int|
            0 <= i < k ==> (#[trigger] v@[i])@ == noise_poly(sigma@, eta as nat, *old(counter) + i),
{
    let ghost first = *counter as int;
    let mut v: Vec<Poly16> = Vec::new();
    let mut i: usize = 0;
    while i < k
        invariant
            i <= k,
            eta == 2 || eta == 3,
            first + k <= 255,
            *counter == first + i,
            v@.len() == i,
            forall|c: int| 0 <= c < i ==> (#[trigger] v@[c]).is_canonical(),
            forall|c: int|
                0 <= c < i ==> (#[trigger] v@[c])@ == noise_poly(sigma@, eta as nat, first + c),
        decreases k - i,
    {
        let block = prf_eta(eta, *sigma, *counter);
        let noise = sample_poly_cbd_eta(eta, &block);
        v.push(ntt(noise));
        *counter = *counter + 1;
        i += 1;
    }
    v
}

/// The product of one row of the matrix with a vector.
pub fn row_times_vector(row: &Vec<Poly16>, v: &Vec<Poly16>) -> (r: Poly16)
    requires
        row@.len() == v@.len(),
    ensures
        r@ == dot_product(row@, v@, v@.len()),
        r.is_canonical(),
{
    let mut acc = Polynomial::zero();
    let mut j: usize = 0;
    while j < v.len()
        invariant
            j <= v@.len(),
            row@.len() == v@.len(),
            acc@ == dot_product(row@, v@, j as nat),
            acc.is_canonical(),
        decreases v@.len() - j,
    {
        let product = pointwise_mul_ntt(&row[j], &v[j]);
        acc = acc.ring_add(&product);
        j += 1;
    }
    acc
}

/// The public vector: the matrix times the secret, plus the noise.
pub fn public_vector(a_hat: &Vec<Vec<Poly16>>, s_hat: &Vec<Poly16>, e_hat: &Vec<Poly16>) -> (t_hat:
    Vec<Poly16>)
    requires
        a_hat@.len() == s_hat@.len(),
        e_hat@.len() == s_hat@.len(),
        forall|i: int| 0 <= i < a_hat@.len() ==> (#[trigger] a_hat@[i])@.len() == s_hat@.len(),
    ensures
        is_ring_vector(t_hat@, s_hat@.len()),
        forall|i: int|
            0 <= i < s_hat@.len() ==> (#[trigger] t_hat@[i])@ == ring_sum(
                dot_product(a_hat@[i]@, s_hat@, s_hat@.len()),
                e_hat@[i]@,
            ),
{
    let mut t_hat: Vec<Poly16> = Vec::new();
    let mut i: usize = 0;
    while i < s_hat.len()
        invariant
            i <= s_hat@.len(),
            a_hat@.len() == s_hat@.len(),
            e_hat@.len() == s_hat@.len(),
            forall|r: int| 0 <= r < a_hat@.len() ==> (#[trigger] a_hat@[r])@.len() == s_hat@.len(),
            t_hat@.len() == i,
            forall|r: int| 0 <= r < i ==> (#[trigger] t_hat@[r]).is_canonical(),
            forall|r: int|
                0 <= r < i ==> (#[trigger] t_hat@[r])@ == ring_sum(
                    dot_product(a_hat@[r]@, s_hat@, s_hat@.len()),
                    e_hat@[r]@,
                ),
        decreases s_hat@.len() - i,
    {
        assert(a_hat@[i as int]@.len() == s_hat@.len());
        let product = row_times_vector(&a_hat[i], s_hat);
        t_hat.push(product.ring_add(&e_hat[i]));
        i += 1;
    }
    t_hat
}

/// Key generation for a given profile.
///
/// That the rejection sampler ends for every entry of the matrix is a
/// property of SHAKE-128 on the seeds, and the caller's to know.
pub fn key_gen_for(params: &ParameterSet, d: [u8; 32]) -> (keys: KeyState)
    requires
        params.is_valid(),
        key_gen_terminates(params.k as nat, d@),
    ensures
        keys.is_key_state_for(params.k as nat, params.eta1 as nat, d@),
        keys.is_canonical(),
{
    let (rho, sigma) = g(d.as_slice());
    let k = params.k as usize;
    let a_hat = sample_matrix(&rho, k);
    let mut counter: u8 = 0;
    let s_hat = sample_noise_vector(&sigma, params.eta1, k, &mut counter);
    let e_hat = sample_noise_vector(&sigma, params.eta1, k, &mut counter);
    let t_hat = public_vector(&a_hat, &s_hat, &e_hat);
    KeyState { d, counter, rho, sigma, a_hat, s_hat, e_hat, t_hat }
}

/// Key generation for the selected profile, ML-KEM-768.
pub fn key_gen(d: [u8; 32]) -> (keys: KeyState)
    requires
        key_gen_terminates(3, d@),
    ensures
        keys.is_key_state_for(3, 2, d@),
        keys.is_canonical(),
{
    let params = selected_parameter_set();
    key_gen_for(&params, d)
}

/// Whether every entry of the matrix of dimension `k` comes out of the first
/// `max_blocks` blocks of three bytes of its stream.
pub fn matrix_yields(rho: &[u8; 32], k: usize, max_blocks: usize) -> (ok: bool)
    requires
        k <= 255,
    ensures
        ok == matrix_yields_within(rho@, k as nat, max_blocks as nat),
        ok ==> matrix_terminates(rho@, k as nat),
{
    let mut i: usize = 0;
    while i < k
        invariant
            i <= k <= 255,
            forall|r: int, c: int|
                0 <= r < i && 0 <= c < k ==> #[trigger] matrix_entry_yields(
                    rho@,
                    r,
                    c,
                    max_blocks as nat,
                ),
            forall|r: int, c: int|
                0 <= r < i && 0 <= c < k ==> #[trigger] matrix_entry_terminates(rho@, r, c),
        decreases k - i,
    {
        let mut j: usize = 0;
        while j < k
            invariant
                i < k <= 255,
                j <= k,
                forall|c: int|
                    0 <= c < j ==> #[trigger] matrix_entry_yields(
                        rho@,
                        i as int,
                        c,
                        max_blocks as nat,
                    ),
                forall|c: int| 0 <= c < j ==> #[trigger] matrix_entry_terminates(rho@, i as int, c),
            decreases k - j,
        {
            if !sample_ntt_yields(rho, j as u8, i as u8, max_blocks) {
                assert(!matrix_entry_yields(rho@, i as int, j as int, max_blocks as nat));
                return false;
            }
            assert(matrix_entry_yields(rho@, i as int, j as int, max_blocks as nat));
            assert(matrix_entry_terminates(rho@, i as int, j as int));
            j += 1;
        }
        i += 1;
    }
    true
}

/// Key generation behind a check of its inputs: it refuses a profile that is
/// not valid, and a seed for which some entry of the matrix does not come
/// out of the first `max_blocks` blocks of three bytes of its stream.
pub fn try_key_gen(params: &ParameterSet, d: [u8; 32], max_blocks: usize) -> (r: Result<
    KeyState,
    KemError,
>)
    ensures
        r is Ok <==> params.is_valid() && key_gen_yields(
            params.k as nat,
            d@,
            max_blocks as nat,
        ),
        r matches Ok(keys) ==> keys.is_key_state_for(params.k as nat, params.eta1 as nat, d@)
            && keys.is_canonical(),
        r matches Err(e) ==> (e == KemError::Configuration <==> !params.is_valid()),
{
    if params.validate().is_err() {
        return Err(KemError::Configuration);
    }
    let (rho, _) = g(d.as_slice());
    if matrix_yields(&rho, params.k as usize, max_blocks) {
        Ok(key_gen_for(params, d))
    } else {
        Err(KemError::HashLayer)
    }
}

/// Key generation for the selected profile behind a check that it will end:
/// it refuses a seed for which some entry of the matrix does not come out of
/// the first `max_blocks` blocks of three bytes of its stream.
pub fn key_gen_checked(d: [u8; 32], max_blocks: usize) -> (r: Result<KeyState, KemError>)
    ensures
        r is Ok <==> key_gen_yields(3, d@, max_blocks as nat),
        r matches Ok(keys) ==> keys.is_key_state_for(3, 2, d@) && keys.is_canonical(),
        r matches Err(e) ==> e == KemError::HashLayer,
{
    let (rho, _) = g(d.as_slice());
    if matrix_yields(&rho, 3, max_blocks) {
        Ok(key_gen(d))
    } else {
        Err(KemError::HashLayer)
    }
}

} // verus!
