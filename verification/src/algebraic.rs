//! The number-theoretic transform and its inverse, and the two samplers.

use crate::auxiliary::{
    bit_rev, bitrev7, bytes_to_bits, bytes_to_bits_spec, get_zeta_lut, lemma_bit_at_is_bit,
    modpow, zeta,
};
use crate::bytevec::ByteVec;
use crate::cryptographic::{
    shake128_byte, shake128_open, shake128_read3, stream_input, stream_offset, Shake128Stream,
};
use crate::params::KemError;
use crate::polynomial::{is_canonical_seq, ring_scaled, Poly16, Polynomial};
use vstd::arithmetic::div_mod::{
    lemma_fundamental_div_mod_converse, lemma_mul_mod_noop_general,
};
use vstd::arithmetic::power::pow;
use vstd::prelude::*;

verus! {

/// The coefficients of an array as mathematical integers.
pub open spec fn ints(a: [u16; 256]) -> Seq<int> {
    Seq::new(256, |i: int| a[i] as int)
}

/// One layer of Cooley-Tukey butterflies of span `len`.
///
/// The 256 positions fall into blocks of `2 * len`. Block number `b` uses the
/// root `zeta(128 / len + b)`; within it, position `j` of the lower half is
/// paired with position `j + len` of the upper half.
pub open spec fn ntt_layer(f: Seq<int>, len: int) -> Seq<int> {
    Seq::new(
        256,
        |j: int|
            {
                let z = zeta((128int / len + j / (2 * len)) as nat);
                if j % (2 * len) < len {
                    (f[j] + z * f[j + len]) % 3329
                } else {
                    (f[j - len] - z * f[j]) % 3329
                }
            },
    )
}

/// One layer of Gentleman-Sande butterflies of span `len`.
///
/// Block number `b` uses the root `zeta(256 / len - 1 - b)`: the table is
/// walked backwards.
pub open spec fn ntt_inv_layer(f: Seq<int>, len: int) -> Seq<int> {
    Seq::new(
        256,
        |j: int|
            {
                let z = zeta((256int / len - 1 - j / (2 * len)) as nat);
                if j % (2 * len) < len {
                    (f[j] + f[j + len]) % 3329
                } else {
                    (z * (f[j] - f[j - len])) % 3329
                }
            },
    )
}

/// The forward layers of span `len` and below, the widest first.
pub open spec fn ntt_layers(f: Seq<int>, len: int) -> Seq<int>
    decreases len,
{
    if len < 2 {
        f
    } else {
        ntt_layers(ntt_layer(f, len), len / 2)
    }
}

/// The forward transform: seven layers, of spans 128 down to 2.
pub open spec fn ntt_spec(f: Seq<int>) -> Seq<int> {
    ntt_layers(f, 128)
}

/// The inverse layers of span `len` and above, the narrowest first.
pub open spec fn ntt_inv_layers(f: Seq<int>, len: int) -> Seq<int>
    decreases 256 - len,
{
    if len < 2 || len > 128 {
        f
    } else {
        ntt_inv_layers(ntt_inv_layer(f, len), 2 * len)
    }
}

/// The inverse transform: seven layers, of spans 2 up to 128, then every
/// coefficient times 3303, the inverse of 128 modulo 3329.
pub open spec fn ntt_inv_spec(f: Seq<int>) -> Seq<int> {
    ring_scaled(ntt_inv_layers(f, 2), 3303)
}

/// The span of a layer together with the number of blocks it has.
pub open spec fn is_layer(len: int, base: int) -> bool {
    ||| (len == 128 && base == 1)
    ||| (len == 64 && base == 2)
    ||| (len == 32 && base == 4)
    ||| (len == 16 && base == 8)
    ||| (len == 8 && base == 16)
    ||| (len == 4 && base == 32)
    ||| (len == 2 && base == 64)
}

/// The state of a layer in progress: positions that the butterflies have
/// reached hold the values of `done`, the others still those of `before`.
/// All blocks below `start` are finished, and in the block at `start` the
/// pairs from `start` up to `j`.
pub open spec fn layer_progress(
    before: Seq<int>,
    done: Seq<int>,
    len: int,
    start: int,
    j: int,
) -> Seq<int> {
    Seq::new(
        256,
        |i: int|
            if i < start || (start <= i < j) || (start + len <= i < j + len) {
                done[i]
            } else {
                before[i]
            },
    )
}

/// Where position `blk * 2 * len + off` lies: in block `blk`, at offset `off`.
proof fn lemma_block_of(len: int, base: int, blk: int, off: int)
    requires
        len > 0,
        base * len == 128,
        0 <= blk,
        0 <= off < 2 * len,
    ensures
        (blk * (2 * len) + off) / (2 * len) == blk,
        (blk * (2 * len) + off) % (2 * len) == off,
        128int / len == base,
        256int / len == 2 * base,
{
    lemma_fundamental_div_mod_converse(blk * (2 * len) + off, 2 * len, blk, off);
    lemma_fundamental_div_mod_converse(128, len, base, 0);
    assert((2 * base) * len == 256) by (nonlinear_arith)
        requires
            base * len == 128,
    ;
    lemma_fundamental_div_mod_converse(256, len, 2 * base, 0);
}

/// The two values that a forward butterfly writes.
proof fn lemma_ntt_layer_pair(f: Seq<int>, len: int, base: int, blk: int, off: int)
    requires
        len > 0,
        base * len == 128,
        0 <= blk,
        0 <= off < len,
        blk * (2 * len) + off + len < 256,
    ensures
        ntt_layer(f, len)[blk * (2 * len) + off] == (f[blk * (2 * len) + off] + zeta(
            (base + blk) as nat,
        ) * f[blk * (2 * len) + off + len]) % 3329,
        ntt_layer(f, len)[blk * (2 * len) + off + len] == (f[blk * (2 * len) + off] - zeta(
            (base + blk) as nat,
        ) * f[blk * (2 * len) + off + len]) % 3329,
{
    lemma_block_of(len, base, blk, off);
    lemma_block_of(len, base, blk, off + len);
    assert(0 <= blk * (2 * len)) by (nonlinear_arith)
        requires
            0 <= blk,
            len > 0,
    ;
}

/// The two values that an inverse butterfly writes.
proof fn lemma_ntt_inv_layer_pair(f: Seq<int>, len: int, base: int, blk: int, off: int)
    requires
        len > 0,
        base * len == 128,
        0 <= blk,
        0 <= off < len,
        blk * (2 * len) + off + len < 256,
    ensures
        ntt_inv_layer(f, len)[blk * (2 * len) + off] == (f[blk * (2 * len) + off] + f[blk * (2
            * len) + off + len]) % 3329,
        ntt_inv_layer(f, len)[blk * (2 * len) + off + len] == (zeta((2 * base - 1 - blk) as nat)
            * (f[blk * (2 * len) + off + len] - f[blk * (2 * len) + off])) % 3329,
{
    lemma_block_of(len, base, blk, off);
    lemma_block_of(len, base, blk, off + len);
    assert(0 <= blk * (2 * len)) by (nonlinear_arith)
        requires
            0 <= blk,
            len > 0,
    ;
}

/// What a forward butterfly computes, in machine arithmetic.
proof fn lemma_forward_butterfly(a: int, x: int, z: int, t: int)
    requires
        t == (z * x) % 3329,
    ensures
        (a + t) % 3329 == (a + z * x) % 3329,
        (a + 3329 - t) % 3329 == (a - z * x) % 3329,
{
}

/// What an inverse butterfly computes, in machine arithmetic.
proof fn lemma_inverse_butterfly(t: int, x: int, z: int, d: int)
    requires
        d == x + 3329 - t % 3329,
    ensures
        (z * d) % 3329 == (z * (x - t)) % 3329,
{
    lemma_mul_mod_noop_general(z, d, 3329);
    lemma_mul_mod_noop_general(z, x - t, 3329);
    assert(d % 3329 == (x - t) % 3329);
}

/// Runs one forward layer of span `len` over `a`; `base` is the index of the
/// root that the first block uses.
fn forward_layer(a: &mut [u16; 256], len: usize, base: usize, zetas: &[u16; 128])
    requires
        len >= 2,
        base * len == 128,
        forall|i: int| 0 <= i < 128 ==> zetas[i] == zeta(i as nat),
    ensures
        ints(*final(a)) == ntt_layer(ints(*old(a)), len as int),
        is_canonical_seq(ints(*final(a))),
{
    let ghost before = ints(*a);
    let ghost done = ntt_layer(before, len as int);
    let ghost mut blk: int = 0;
    let mut i: usize = base;
    let mut start: usize = 0;
    assert(len <= 128 && 1 <= base <= 64) by (nonlinear_arith)
        requires
            len >= 2,
            base * len == 128,
    ;
    assert(ints(*a) =~= layer_progress(before, done, len as int, 0, 0));
    while start < 256
        invariant
            2 <= len <= 128,
            1 <= base <= 64,
            base * len == 128,
            0 <= blk,
            start == blk * (2 * len),
            start <= 256,
            i == base + blk,
            before.len() == 256,
            done == ntt_layer(before, len as int),
            forall|k: int| 0 <= k < 128 ==> zetas[k] == zeta(k as nat),
            ints(*a) == layer_progress(before, done, len as int, start as int, start as int),
        decreases 256 - start,
    {
        proof {
            assert(blk < base && start + 2 * len <= 256) by (nonlinear_arith)
                requires
                    start == blk * (2 * len),
                    start < 256,
                    base * len == 128,
                    len >= 2,
                    0 <= blk,
            ;
        }
        let z = zetas[i];
        i += 1;
        let mut j: usize = start;
        while j < start + len
            invariant
                2 <= len <= 128,
                base * len == 128,
                0 <= blk < base,
                start == blk * (2 * len),
                start + 2 * len <= 256,
                start <= j <= start + len,
                z == zeta((base + blk) as nat),
                before.len() == 256,
                done == ntt_layer(before, len as int),
                ints(*a) == layer_progress(before, done, len as int, start as int, j as int),
            decreases start + len - j,
        {
            let ghost prev = ints(*a);
            let lo = a[j] as u32;
            let hi = a[j + len] as u32;
            proof {
                assert(prev[j as int] == before[j as int]);
                assert(prev[j + len] == before[j + len]);
                assert(z * hi <= 3328 * 0xffff) by (nonlinear_arith)
                    requires
                        z <= 3328,
                        hi <= 0xffff,
                ;
                lemma_ntt_layer_pair(before, len as int, base as int, blk, j - start);
                lemma_forward_butterfly(
                    lo as int,
                    hi as int,
                    z as int,
                    ((z as int) * (hi as int)) % 3329,
                );
            }
            let t = (z as u32 * hi) % 3329;
            a[j + len] = ((lo + 3329 - t) % 3329) as u16;
            a[j] = ((lo + t) % 3329) as u16;
            proof {
                let now = ints(*a);
                let next = layer_progress(before, done, len as int, start as int, j + 1);
                assert(now[j as int] == done[j as int]);
                assert(now[j + len] == done[j + len]);
                assert forall|k: int| 0 <= k < 256 implies now[k] == next[k] by {
                    if k != j && k != j + len {
                        assert(now[k] == prev[k]);
                    }
                }
                assert(now =~= next);
            }
            j += 1;
        }
        proof {
            assert(ints(*a) =~= layer_progress(
                before,
                done,
                len as int,
                start + 2 * len,
                start + 2 * len,
            ));
            assert((blk + 1) * (2 * len) == start + 2 * len) by (nonlinear_arith)
                requires
                    start == blk * (2 * len),
            ;
            blk = blk + 1;
        }
        start += 2 * len;
    }
    assert(ints(*a) =~= done);
}

/// Runs one inverse layer of span `len` over `a`; `base` is 128 / `len`, so
/// that the first block uses root number `2 * base - 1`.
fn inverse_layer(a: &mut [u16; 256], len: usize, base: usize, zetas: &[u16; 128])
    requires
        len >= 2,
        base * len == 128,
        forall|i: int| 0 <= i < 128 ==> zetas[i] == zeta(i as nat),
    ensures
        ints(*final(a)) == ntt_inv_layer(ints(*old(a)), len as int),
        is_canonical_seq(ints(*final(a))),
{
    let ghost before = ints(*a);
    let ghost done = ntt_inv_layer(before, len as int);
    let ghost mut blk: int = 0;
    assert(len <= 128 && 1 <= base <= 64) by (nonlinear_arith)
        requires
            len >= 2,
            base * len == 128,
    ;
    let mut i: usize = 2 * base - 1;
    let mut start: usize = 0;
    assert(ints(*a) =~= layer_progress(before, done, len as int, 0, 0));
    while start < 256
        invariant
            2 <= len <= 128,
            1 <= base <= 64,
            base * len == 128,
            0 <= blk,
            start == blk * (2 * len),
            start <= 256,
            start < 256 ==> i == 2 * base - 1 - blk,
            before.len() == 256,
            done == ntt_inv_layer(before, len as int),
            forall|k: int| 0 <= k < 128 ==> zetas[k] == zeta(k as nat),
            ints(*a) == layer_progress(before, done, len as int, start as int, start as int),
        decreases 256 - start,
    {
        proof {
            assert(blk < base && start + 2 * len <= 256) by (nonlinear_arith)
                requires
                    start == blk * (2 * len),
                    start < 256,
                    base * len == 128,
                    len >= 2,
                    0 <= blk,
            ;
        }
        let z = zetas[i];
        let mut j: usize = start;
        while j < start + len
            invariant
                2 <= len <= 128,
                base * len == 128,
                0 <= blk < base,
                start == blk * (2 * len),
                start + 2 * len <= 256,
                start <= j <= start + len,
                z == zeta((2 * base - 1 - blk) as nat),
                before.len() == 256,
                done == ntt_inv_layer(before, len as int),
                ints(*a) == layer_progress(before, done, len as int, start as int, j as int),
            decreases start + len - j,
        {
            let ghost prev = ints(*a);
            let t = a[j] as u32;
            let hi = a[j + len] as u32;
            let d = hi + (3329 - t % 3329);
            proof {
                assert(prev[j as int] == before[j as int]);
                assert(prev[j + len] == before[j + len]);
                assert(z * d <= 3328 * 0x1_ffff) by (nonlinear_arith)
                    requires
                        z <= 3328,
                        d <= 0x1_ffff,
                ;
                lemma_ntt_inv_layer_pair(before, len as int, base as int, blk, j - start);
                lemma_inverse_butterfly(t as int, hi as int, z as int, d as int);
            }
            a[j] = ((t + hi) % 3329) as u16;
            a[j + len] = ((z as u32 * d) % 3329) as u16;
            proof {
                let now = ints(*a);
                let next = layer_progress(before, done, len as int, start as int, j + 1);
                assert(now[j as int] == done[j as int]);
                assert(now[j + len] == done[j + len]);
                assert forall|k: int| 0 <= k < 256 implies now[k] == next[k] by {
                    if k != j && k != j + len {
                        assert(now[k] == prev[k]);
                    }
                }
                assert(now =~= next);
            }
            j += 1;
        }
        proof {
            assert(ints(*a) =~= layer_progress(
                before,
                done,
                len as int,
                start + 2 * len,
                start + 2 * len,
            ));
            assert((blk + 1) * (2 * len) == start + 2 * len) by (nonlinear_arith)
                requires
                    start == blk * (2 * len),
            ;
            assert(start + 2 * len < 256 ==> blk + 1 < base) by (nonlinear_arith)
                requires
                    start == blk * (2 * len),
                    base * len == 128,
                    len >= 2,
                    0 <= blk,
            ;
            blk = blk + 1;
        }
        start += 2 * len;
        if start < 256 {
            i -= 1;
        }
    }
    assert(ints(*a) =~= done);
}

/// The number-theoretic transform of `f`.
pub fn ntt(f: Poly16) -> (r: Poly16)
    ensures
        r@ == ntt_spec(f@),
        r.is_canonical(),
{
    let zetas = get_zeta_lut();
    let mut a = f.coefficients();
    assert(ints(a) =~= f@);
    let mut len: usize = 128;
    let mut base: usize = 1;
    while len >= 2
        invariant
            is_layer(len as int, base as int) || (len == 1 && base == 128),
            len < 128 ==> is_canonical_seq(ints(a)),
            ntt_layers(ints(a), len as int) == ntt_spec(f@),
            forall|i: int| 0 <= i < 128 ==> zetas[i] == zeta(i as nat),
        decreases len,
    {
        forward_layer(&mut a, len, base, &zetas);
        len /= 2;
        base *= 2;
    }
    let r = Polynomial::new(&a);
    assert(r@ =~= ints(a));
    r
}

/// The inverse number-theoretic transform of `ft`.
pub fn ntt_inv(ft: Poly16) -> (r: Poly16)
    ensures
        r@ == ntt_inv_spec(ft@),
        r.is_canonical(),
{
    let zetas = get_zeta_lut();
    let mut a = ft.coefficients();
    assert(ints(a) =~= ft@);
    let mut len: usize = 2;
    let mut base: usize = 64;
    while len <= 128
        invariant
            is_layer(len as int, base as int) || (len == 256 && base == 0),
            ntt_inv_layers(ints(a), len as int) == ntt_inv_layers(ft@, 2),
            forall|i: int| 0 <= i < 128 ==> zetas[i] == zeta(i as nat),
        decreases 256 - len,
    {
        inverse_layer(&mut a, len, base, &zetas);
        len *= 2;
        base /= 2;
    }
    let unscaled = Polynomial::new(&a);
    assert(unscaled@ =~= ints(a));
    unscaled.ring_mul_scalar(3303)
}

/// The sum of the `count` entries of `bits` that start at `from`.
pub open spec fn bit_sum(bits: Seq<u8>, from: int, count: nat) -> int
    decreases count,
{
    if count == 0 {
        0
    } else {
        bit_sum(bits, from, (count - 1) as nat) + bits[from + count - 1]
    }
}

/// Coefficient `i` of the centered binomial sample: the sum of `eta` bits
/// minus the sum of the next `eta` bits, as a residue modulo 3329.
pub open spec fn cbd_coefficient(bits: Seq<u8>, eta: nat, i: int) -> int {
    (bit_sum(bits, 2 * i * eta, eta) - bit_sum(bits, 2 * i * eta + eta, eta)) % 3329
}

/// The centered binomial sample that a block of 64 * `eta` bytes gives.
pub open spec fn sample_poly_cbd_spec(eta: nat, bytes: Seq<u8>) -> Seq<int> {
    Seq::new(256, |i: int| cbd_coefficient(bytes_to_bits_spec(bytes), eta, i))
}

/// Whether `c` is one of 0, 1, ..., eta, 3329 - eta, ..., 3328.
pub open spec fn in_cbd_support(c: int, eta: nat) -> bool {
    0 <= c <= eta || 3329 - eta <= c < 3329
}

/// A sum of `count` bits lies between 0 and `count`.
pub proof fn lemma_bit_sum_bounds(bits: Seq<u8>, from: int, count: nat)
    requires
        0 <= from,
        from + count <= bits.len(),
        forall|k: int| from <= k < from + count ==> #[trigger] bits[k] <= 1,
    ensures
        0 <= bit_sum(bits, from, count) <= count,
    decreases count,
{
    if count > 0 {
        lemma_bit_sum_bounds(bits, from, (count - 1) as nat);
        assert(bits[from + count - 1] <= 1);
    }
}

/// Every entry of the bits of some bytes is zero or one.
pub proof fn lemma_bits_are_bits(bytes: Seq<u8>)
    ensures
        forall|k: int|
            0 <= k < 8 * bytes.len() ==> #[trigger] bytes_to_bits_spec(bytes)[k] <= 1,
{
    assert forall|k: int| 0 <= k < 8 * bytes.len() implies #[trigger] bytes_to_bits_spec(
        bytes,
    )[k] <= 1 by {
        lemma_bit_at_is_bit(bytes[k / 8], (k % 8) as u8);
    }
}

/// Every coefficient of a centered binomial sample is at most `eta` away
/// from zero in the ring: one of 0, ..., eta, 3329 - eta, ..., 3328.
pub proof fn lemma_cbd_support(eta: nat, bytes: Seq<u8>, i: int)
    requires
        eta == 2 || eta == 3,
        bytes.len() == 64 * eta,
        0 <= i < 256,
    ensures
        in_cbd_support(sample_poly_cbd_spec(eta, bytes)[i], eta),
{
    let bits = bytes_to_bits_spec(bytes);
    lemma_bits_are_bits(bytes);
    assert(0 <= 2 * i * eta && 2 * i * eta + 2 * eta <= 512 * eta) by (nonlinear_arith)
        requires
            0 <= i < 256,
            eta >= 2,
    ;
    lemma_bit_sum_bounds(bits, 2 * i * eta, eta);
    lemma_bit_sum_bounds(bits, 2 * i * eta + eta, eta);
}

/// The centered binomial sampler for a value of eta known only at run time.
pub fn sample_poly_cbd_eta(eta: usize, bytes: &ByteVec) -> (r: Poly16)
    requires
        eta == 2 || eta == 3,
        bytes@.len() == 64 * eta,
    ensures
        r@ == sample_poly_cbd_spec(eta as nat, bytes@),
        r.is_canonical(),
        forall|i: int| 0 <= i < 256 ==> in_cbd_support(#[trigger] r@[i], eta as nat),
{
    let b = bytes_to_bits(bytes.as_slice());
    let ghost bits = bytes_to_bits_spec(bytes@);
    proof {
        lemma_bits_are_bits(bytes@);
    }
    let mut f = [0u16;256];
    let mut i: usize = 0;
    while i < 256
        invariant
            i <= 256,
            eta == 2 || eta == 3,
            b@ == bits,
            bits.len() == 512 * eta,
            forall|k: int| 0 <= k < 512 * eta ==> #[trigger] bits[k] <= 1,
            forall|k: int| 0 <= k < i ==> f[k] as int == cbd_coefficient(bits, eta as nat, k),
            forall|k: int| 0 <= k < i ==> in_cbd_support(#[trigger] f[k] as int, eta as nat),
        decreases 256 - i,
    {
        assert(2 * i * eta + 2 * eta <= 512 * eta) by (nonlinear_arith)
            requires
                i < 256,
                eta >= 2,
        ;
        let at = 2 * i * eta;
        let mut x: u16 = 0;
        let mut y: u16 = 0;
        let mut j: usize = 0;
        while j < eta
            invariant
                j <= eta <= 3,
                at + 2 * eta <= b@.len() <= 1536,
                b@ == bits,
                forall|k: int| 0 <= k < bits.len() ==> #[trigger] bits[k] <= 1,
                x == bit_sum(bits, at as int, j as nat),
                y == bit_sum(bits, at + eta, j as nat),
                x <= j,
                y <= j,
            decreases eta - j,
        {
            assert(bits[at + j] <= 1);
            assert(bits[at + eta + j] <= 1);
            x += b[at + j] as u16;
            y += b[at + eta + j] as u16;
            j += 1;
        }
        f[i] = (x + 3329 - y) % 3329;
        i += 1;
    }
    let r = Polynomial::new(&f);
    assert(r@ =~= sample_poly_cbd_spec(eta as nat, bytes@));
    r
}

/// The centered binomial sampler: 256 coefficients, each the difference of
/// two sums of `ETA` bits of the block.
pub fn sample_poly_cbd<const ETA: usize>(bytes: ByteVec) -> (r: Poly16)
    requires
        ETA == 2 || ETA == 3,
        bytes@.len() == 64 * ETA,
    ensures
        r@ == sample_poly_cbd_spec(ETA as nat, bytes@),
        r.is_canonical(),
        forall|i: int| 0 <= i < 256 ==> in_cbd_support(#[trigger] r@[i], ETA as nat),
{
    sample_poly_cbd_eta(ETA, &bytes)
}

/// The centered binomial sampler behind a check of its parameters: it
/// refuses an eta other than 2 and 3, and a block whose length is not
/// 64 * `eta`.
pub fn try_sample_poly_cbd(eta: usize, bytes: &ByteVec) -> (r: Result<Poly16, KemError>)
    ensures
        r is Ok <==> (eta == 2 || eta == 3) && bytes@.len() == 64 * eta,
        r matches Ok(p) ==> p@ == sample_poly_cbd_spec(eta as nat, bytes@) && p.is_canonical(),
        r matches Err(e) ==> e == KemError::Configuration,
{
    if (eta == 2 && bytes.len() == 128) || (eta == 3 && bytes.len() == 192) {
        Ok(sample_poly_cbd_eta(eta, bytes))
    } else {
        Err(KemError::Configuration)
    }
}

/// The first candidate that three bytes encode: twelve bits, the low eight
/// from the first byte.
pub open spec fn candidate_low(c0: u8, c1: u8) -> int {
    c0 + 256 * (c1 % 16)
}

/// The second candidate that three bytes encode: twelve bits, the high eight
/// from the third byte.
pub open spec fn candidate_high(c1: u8, c2: u8) -> int {
    c1 / 16 + 16 * c2
}

/// The candidates of one block of three bytes that are below 3329, the first
/// before the second.
pub open spec fn block_candidates(c0: u8, c1: u8, c2: u8) -> Seq<int> {
    let first = if candidate_low(c0, c1) < 3329 {
        seq![candidate_low(c0, c1)]
    } else {
        Seq::<int>::empty()
    };
    if candidate_high(c1, c2) < 3329 {
        first.push(candidate_high(c1, c2))
    } else {
        first
    }
}

/// The candidates that the first `blocks` blocks of a byte stream yield, in
/// the order in which they are met.
pub open spec fn accepted(stream: spec_fn(nat) -> u8, blocks: nat) -> Seq<int>
    decreases blocks,
{
    if blocks == 0 {
        Seq::<int>::empty()
    } else {
        let n = (blocks - 1) as nat;
        accepted(stream, n) + block_candidates(stream(3 * n), stream(3 * n + 1), stream(3 * n + 2))
    }
}

/// Whether the first `blocks` blocks of the stream yield 256 candidates.
pub open spec fn yields_sample(stream: spec_fn(nat) -> u8, blocks: nat) -> bool {
    accepted(stream, blocks).len() >= 256
}

/// The first 256 candidates that the stream yields; of a stream that never
/// yields as many, the zero polynomial.
pub open spec fn rejection_sample(stream: spec_fn(nat) -> u8) -> Seq<int> {
    if exists|n: nat| yields_sample(stream, n) {
        accepted(stream, choose|n: nat| yields_sample(stream, n)).take(256)
    } else {
        Seq::new(256, |i: int| 0int)
    }
}

/// The SHAKE-128 output on `input`, as a stream of bytes.
pub open spec fn xof_stream(input: Seq<u8>) -> spec_fn(nat) -> u8 {
    |i: nat| shake128_byte(input, i)
}

/// What the rejection sampler feeds to SHAKE-128: the seed, then the two
/// index bytes.
pub open spec fn sample_ntt_input(rho: Seq<u8>, b1: u8, b2: u8) -> Seq<u8> {
    rho.push(b1).push(b2)
}

/// The polynomial that the rejection sampler returns for a seed and two
/// index bytes.
pub open spec fn sample_ntt_spec(rho: Seq<u8>, b1: u8, b2: u8) -> Seq<int> {
    rejection_sample(xof_stream(sample_ntt_input(rho, b1, b2)))
}

/// Whether the SHAKE-128 output for a seed and two index bytes ever yields
/// 256 candidates.
pub open spec fn sample_ntt_terminates(rho: Seq<u8>, b1: u8, b2: u8) -> bool {
    exists|n: nat| yields_sample(xof_stream(sample_ntt_input(rho, b1, b2)), n)
}

/// More blocks yield the same candidates and then more: what fewer blocks
/// yield is a prefix.
pub proof fn lemma_accepted_prefix(stream: spec_fn(nat) -> u8, n: nat, m: nat)
    requires
        n <= m,
    ensures
        accepted(stream, n).len() <= accepted(stream, m).len(),
        accepted(stream, m).take(accepted(stream, n).len() as int) == accepted(stream, n),
    decreases m,
{
    if n == m {
        assert(accepted(stream, m).take(accepted(stream, n).len() as int) =~= accepted(stream, n));
    } else {
        lemma_accepted_prefix(stream, n, (m - 1) as nat);
        let shorter = accepted(stream, (m - 1) as nat);
        assert(accepted(stream, m).take(accepted(stream, n).len() as int) =~= shorter.take(
            accepted(stream, n).len() as int,
        ));
    }
}

/// Every candidate that is accepted is a residue modulo 3329.
pub proof fn lemma_accepted_canonical(stream: spec_fn(nat) -> u8, blocks: nat, k: int)
    requires
        0 <= k < accepted(stream, blocks).len(),
    ensures
        0 <= accepted(stream, blocks)[k] < 3329,
    decreases blocks,
{
    if blocks > 0 {
        let n = (blocks - 1) as nat;
        if k < accepted(stream, n).len() {
            lemma_accepted_canonical(stream, n, k);
        }
    }
}

/// The sample does not depend on how far the stream is read: any number of
/// blocks that yields 256 candidates yields the same first 256.
pub proof fn lemma_rejection_sample_unique(stream: spec_fn(nat) -> u8, n: nat)
    requires
        yields_sample(stream, n),
    ensures
        rejection_sample(stream) == accepted(stream, n).take(256),
{
    let c = choose|c: nat| yields_sample(stream, c);
    if c <= n {
        lemma_accepted_prefix(stream, c, n);
        assert(accepted(stream, n).take(256) =~= accepted(stream, c).take(256)) by {
            assert(accepted(stream, n).take(accepted(stream, c).len() as int) == accepted(
                stream,
                c,
            ));
        }
    } else {
        lemma_accepted_prefix(stream, n, c);
        assert(accepted(stream, c).take(256) =~= accepted(stream, n).take(256)) by {
            assert(accepted(stream, c).take(accepted(stream, n).len() as int) == accepted(
                stream,
                n,
            ));
        }
    }
}

/// The sample is canonical, whatever the stream holds.
pub proof fn lemma_rejection_sample_canonical(stream: spec_fn(nat) -> u8)
    ensures
        is_canonical_seq(rejection_sample(stream)),
{
    if exists|n: nat| yields_sample(stream, n) {
        let c = choose|n: nat| yields_sample(stream, n);
        assert forall|k: int| 0 <= k < 256 implies 0 <= #[trigger] rejection_sample(stream)[k]
            < 3329 by {
            lemma_accepted_canonical(stream, c, k);
        }
    }
}

/// What the rejection sampler returns is canonical, for every seed and every
/// pair of index bytes.
pub proof fn lemma_sample_ntt_canonical(rho: Seq<u8>, b1: u8, b2: u8)
    ensures
        is_canonical_seq(sample_ntt_spec(rho, b1, b2)),
{
    lemma_rejection_sample_canonical(xof_stream(sample_ntt_input(rho, b1, b2)));
}

/// The rejection sampler is deterministic: equal seeds and index bytes give
/// equal polynomials.
pub proof fn lemma_sample_ntt_deterministic(
    rho: Seq<u8>,
    b1: u8,
    b2: u8,
    rho_again: Seq<u8>,
    b1_again: u8,
    b2_again: u8,
)
    requires
        rho == rho_again,
        b1 == b1_again,
        b2 == b2_again,
    ensures
        sample_ntt_spec(rho, b1, b2) == sample_ntt_spec(rho_again, b1_again, b2_again),
{
}

/// The centered binomial sampler is deterministic: equal blocks give equal
/// polynomials.
pub proof fn lemma_sample_poly_cbd_deterministic(eta: nat, bytes: Seq<u8>, bytes_again: Seq<u8>)
    requires
        bytes == bytes_again,
    ensures
        sample_poly_cbd_spec(eta, bytes) == sample_poly_cbd_spec(eta, bytes_again),
{
}

/// Decodes one block of three bytes into its two twelve-bit candidates.
pub fn decode_block(block: &[u8; 3]) -> (d: (u16, u16))
    ensures
        d.0 == candidate_low(block[0], block[1]),
        d.1 == candidate_high(block[1], block[2]),
{
    let d1: u16 = block[0] as u16 + 256 * (block[1] % 16) as u16;
    let d2: u16 = (block[1] / 16) as u16 + 16 * block[2] as u16;
    (d1, d2)
}

/// Appends to the first `filled` coefficients of `out` the candidates of
/// `block` that are below 3329, as far as there is room, and returns how
/// many coefficients are filled then.
pub fn accept_block(out: &mut [u16; 256], filled: usize, block: &[u8; 3]) -> (now: usize)
    requires
        filled <= 256,
    ensures
        filled <= now <= 256,
        now == filled + block_candidates(block[0], block[1], block[2]).len() || (now == 256
            && filled + block_candidates(block[0], block[1], block[2]).len() > 256),
        forall|k: int| 0 <= k < filled ==> final(out)[k] == old(out)[k],
        forall|k: int|
            filled <= k < now ==> final(out)[k] as int == block_candidates(
                block[0],
                block[1],
                block[2],
            )[k - filled],
{
    let (d1, d2) = decode_block(block);
    let mut j = filled;
    if d1 < 3329 && j < 256 {
        out[j] = d1;
        j += 1;
    }
    if d2 < 3329 && j < 256 {
        out[j] = d2;
        j += 1;
    }
    j
}

/// The rejection sampler: reads SHAKE-128 on `rho`, `b1`, `b2` three bytes
/// at a time and keeps the twelve-bit candidates below 3329 until it has 256.
///
/// It reads as far as it must. That it ever finds 256 candidates is a
/// property of SHAKE-128 on this input, and the caller's to know.
pub fn sample_ntt(rho: [u8; 32], b1: u8, b2: u8) -> (r: Poly16)
    requires
        sample_ntt_terminates(rho@, b1, b2),
    ensures
        r@ == sample_ntt_spec(rho@, b1, b2),
        r.is_canonical(),
{
    let input = seed_with_indices(&rho, b1, b2);
    let ghost stream = xof_stream(input@);
    let ghost cutoff = choose|n: nat| yields_sample(stream, n);
    let ghost mut blocks: nat = 0;
    let mut reader = shake128_open(input.as_slice());
    let mut out = [0u16;256];
    let mut j: usize = 0;
    while j < 256
        invariant
            j <= 256,
            stream == xof_stream(input@),
            yields_sample(stream, cutoff),
            stream_input(reader) == input@,
            stream_offset(reader) == 3 * blocks,
            j == accepted(stream, blocks).len() || (j == 256 && accepted(stream, blocks).len()
                > 256),
            forall|k: int| 0 <= k < j ==> out[k] as int == accepted(stream, blocks)[k],
        decreases cutoff - blocks,
    {
        proof {
            if blocks >= cutoff {
                lemma_accepted_prefix(stream, cutoff, blocks);
            }
        }
        let block = shake128_read3(&mut reader);
        proof {
            assert(block[0] == stream(3 * blocks));
            assert(block[1] == stream(3 * blocks + 1));
            assert(block[2] == stream(3 * blocks + 2));
            blocks = blocks + 1;
        }
        j = accept_block(&mut out, j, &block);
    }
    let r = Polynomial::new(&out);
    proof {
        lemma_rejection_sample_unique(stream, blocks);
        assert forall|k: int| 0 <= k < 256 implies 0 <= #[trigger] r@[k] < 3329 by {
            lemma_accepted_canonical(stream, blocks, k);
        }
        assert(r@ =~= accepted(stream, blocks).take(256));
    }
    r
}

/// Joins a 32-byte seed and two index bytes into a buffer of 34 bytes.
pub fn seed_with_indices(rho: &[u8; 32], b1: u8, b2: u8) -> (input: [u8; 34])
    ensures
        input@ == sample_ntt_input(rho@, b1, b2),
{
    let mut input = [0u8;34];
    let mut i: usize = 0;
    while i < 32
        invariant
            i <= 32,
            forall|k: int| 0 <= k < i ==> input[k] == rho[k],
        decreases 32 - i,
    {
        input[i] = rho[i];
        i += 1;
    }
    input[32] = b1;
    input[33] = b2;
    assert(input@ =~= sample_ntt_input(rho@, b1, b2));
    input
}

/// The number of candidates below 3329 in one block of three bytes.
pub fn count_block(block: &[u8; 3]) -> (n: usize)
    ensures
        n == block_candidates(block[0], block[1], block[2]).len(),
{
    let (d1, d2) = decode_block(block);
    let mut n: usize = 0;
    if d1 < 3329 {
        n += 1;
    }
    if d2 < 3329 {
        n += 1;
    }
    n
}

/// Whether the first `max_blocks` blocks of three bytes of SHAKE-128 on
/// `rho`, `b1`, `b2` yield 256 candidates. Reads no further than it must to
/// tell.
pub fn sample_ntt_yields(rho: &[u8; 32], b1: u8, b2: u8, max_blocks: usize) -> (ok: bool)
    ensures
        ok == yields_sample(xof_stream(sample_ntt_input(rho@, b1, b2)), max_blocks as nat),
        ok ==> sample_ntt_terminates(rho@, b1, b2),
{
    let input = seed_with_indices(rho, b1, b2);
    let ghost stream = xof_stream(input@);
    let mut reader = shake128_open(input.as_slice());
    let mut blocks: usize = 0;
    let mut found: usize = 0;
    while blocks < max_blocks && found < 256
        invariant
            blocks <= max_blocks,
            stream == xof_stream(input@),
            stream_input(reader) == input@,
            stream_offset(reader) == 3 * blocks,
            found == accepted(stream, blocks as nat).len(),
            found <= 257,
        decreases max_blocks - blocks,
    {
        let block = shake128_read3(&mut reader);
        proof {
            assert(block[0] == stream((3 * blocks) as nat));
            assert(block[1] == stream((3 * blocks + 1) as nat));
            assert(block[2] == stream((3 * blocks + 2) as nat));
        }
        found += count_block(&block);
        blocks += 1;
    }
    proof {
        if found >= 256 {
            lemma_accepted_prefix(stream, blocks as nat, max_blocks as nat);
            assert(yields_sample(stream, max_blocks as nat));
        }
    }
    found >= 256
}

/// The rejection sampler behind a check that it will end: it samples only if
/// the first `max_blocks` blocks of three bytes yield 256 candidates.
pub fn try_sample_ntt(rho: [u8; 32], b1: u8, b2: u8, max_blocks: usize) -> (r: Result<
    Poly16,
    KemError,
>)
    ensures
        r is Ok <==> yields_sample(
            xof_stream(sample_ntt_input(rho@, b1, b2)),
            max_blocks as nat,
        ),
        r matches Ok(p) ==> p@ == sample_ntt_spec(rho@, b1, b2) && p.is_canonical(),
        r matches Err(e) ==> e == KemError::HashLayer,
{
    if sample_ntt_yields(&rho, b1, b2, max_blocks) {
        Ok(sample_ntt(rho, b1, b2))
    } else {
        Err(KemError::HashLayer)
    }
}

/// The root that belongs to the pair of coefficients `2 * i` and
/// `2 * i + 1` of a transformed polynomial: 17 to the power of twice the bit
/// reversal of `i` plus one, modulo 3329.
pub open spec fn gamma(i: nat) -> int {
    pow(17, 2 * bitrev7(i) + 1) % 3329
}

/// The product of two transformed polynomials: pair by pair, the product of
/// `a0 + a1 X` and `b0 + b1 X` modulo `X^2 - gamma`.
pub open spec fn pointwise_product(a: Seq<int>, b: Seq<int>) -> Seq<int> {
    Seq::new(
        256,
        |j: int|
            if j % 2 == 0 {
                (a[j] * b[j] + a[j + 1] * b[j + 1] * gamma((j / 2) as nat)) % 3329
            } else {
                (a[j - 1] * b[j] + a[j] * b[j - 1]) % 3329
            },
    )
}

/// What the base-case multiplication computes, in machine arithmetic.
proof fn lemma_base_case(a0: int, a1: int, b0: int, b1: int, g: int)
    ensures
        ((a0 * b0) % 3329 + (((a1 * b1) % 3329) * g) % 3329) % 3329 == (a0 * b0 + a1 * b1 * g)
            % 3329,
        ((a0 * b1) % 3329 + (a1 * b0) % 3329) % 3329 == (a0 * b1 + a1 * b0) % 3329,
{
    lemma_mul_mod_noop_general(a1 * b1, g, 3329);
}

/// The root of pair number `i`.
pub fn get_gamma(i: usize) -> (g: u16)
    requires
        i < 128,
    ensures
        g == gamma(i as nat),
        g < 3329,
{
    modpow(17, 2 * bit_rev(i as u8) + 1, 3329)
}

/// The product of two polynomials in the transformed domain.
pub fn pointwise_mul_ntt(a: &Poly16, b: &Poly16) -> (r: Poly16)
    ensures
        r@ == pointwise_product(a@, b@),
        r.is_canonical(),
{
    let x = a.coefficients();
    let y = b.coefficients();
    let mut c = [0u16;256];
    let mut i: usize = 0;
    while i < 128
        invariant
            i <= 128,
            a@ == ints(x),
            b@ == ints(y),
            forall|k: int| 0 <= k < 2 * i ==> c[k] as int == pointwise_product(a@, b@)[k],
        decreases 128 - i,
    {
        let g = get_gamma(i) as u32;
        let a0 = x[2 * i] as u32;
        let a1 = x[2 * i + 1] as u32;
        let b0 = y[2 * i] as u32;
        let b1 = y[2 * i + 1] as u32;
        proof {
            assert(a0 * b0 <= 0xffff * 0xffff && a1 * b1 <= 0xffff * 0xffff && a0 * b1 <= 0xffff
                * 0xffff && a1 * b0 <= 0xffff * 0xffff) by (nonlinear_arith)
                requires
                    a0 <= 0xffff,
                    a1 <= 0xffff,
                    b0 <= 0xffff,
                    b1 <= 0xffff,
            ;
            lemma_base_case(a0 as int, a1 as int, b0 as int, b1 as int, g as int);
            assert((2 * i) / 2 == i && (2 * i + 1) / 2 == i);
        }
        let t = (a1 * b1) % 3329;
        assert(t * g <= 3328 * 3328) by (nonlinear_arith)
            requires
                t <= 3328,
                g <= 3328,
        ;
        c[2 * i] = (((a0 * b0) % 3329 + (t * g) % 3329) % 3329) as u16;
        c[2 * i + 1] = (((a0 * b1) % 3329 + (a1 * b0) % 3329) % 3329) as u16;
        i += 1;
    }
    let r = Polynomial::new(&c);
    assert(r@ =~= pointwise_product(a@, b@));
    r
}

} // verus!
