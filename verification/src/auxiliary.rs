//! Bit reversal, the table of roots of unity, and the packing of bits into
//! bytes.

use vstd::arithmetic::div_mod::{lemma_mul_mod_noop_general, lemma_small_mod};
use vstd::arithmetic::power::{
    lemma_pow0, lemma_pow1, lemma_pow_adds, lemma_pow_mod_noop, lemma_pow_multiplies, pow,
};
use vstd::prelude::*;

verus! {

/// The seven low bits of `i`, in reverse order.
pub open spec fn bitrev7(i: nat) -> nat {
    (i % 2) * 64 + (i / 2 % 2) * 32 + (i / 4 % 2) * 16 + (i / 8 % 2) * 8 + (i / 16 % 2) * 4 + (i
        / 32 % 2) * 2 + (i / 64 % 2)
}

/// Bit reversal written with shifts and masks, as the machine computes it.
spec fn bit_rev_u8(n: u8) -> u8 {
    ((n & 1) << 6) | (((n >> 1) & 1) << 5) | (((n >> 2) & 1) << 4) | (((n >> 3) & 1) << 3) | (((n
        >> 4) & 1) << 2) | (((n >> 5) & 1) << 1) | (n >> 6)
}

/// Shifts and masks compute the arithmetic definition.
proof fn lemma_bit_rev_u8(n: u8)
    requires
        n < 128,
    ensures
        bit_rev_u8(n) == bitrev7(n as nat),
        bit_rev_u8(n) < 128,
{
    let r = bit_rev_u8(n);
    assert(r < 128 && r == (n % 2) * 64 + (n / 2 % 2) * 32 + (n / 4 % 2) * 16 + (n / 8 % 2) * 8 + (n
        / 16 % 2) * 4 + (n / 32 % 2) * 2 + (n / 64 % 2)) by (bit_vector)
        requires
            n < 128,
            r == bit_rev_u8(n),
    ;
}

/// Reversing seven bits twice gives the number back.
pub proof fn lemma_bit_rev_involution(i: nat)
    requires
        i < 128,
    ensures
        bitrev7(i) < 128,
        bitrev7(bitrev7(i)) == i,
{
    let n = i as u8;
    let r = bit_rev_u8(n);
    lemma_bit_rev_u8(n);
    lemma_bit_rev_u8(r);
    assert(bit_rev_u8(r) == n) by (bit_vector)
        requires
            n < 128,
            r == bit_rev_u8(n),
    ;
}

/// The seven low bits of `n`, in reverse order.
pub fn bit_rev(n: u8) -> (r: u8)
    requires
        n < 128,
    ensures
        r == bitrev7(n as nat),
        r < 128,
{
    proof {
        lemma_bit_rev_u8(n);
    }
    ((n & 1) << 6) | (((n >> 1) & 1) << 5) | (((n >> 2) & 1) << 4) | (((n >> 3) & 1) << 3) | (((n
        >> 4) & 1) << 2) | (((n >> 5) & 1) << 1) | (n >> 6)
}

/// The table of all 128 seven-bit reversals.
pub fn get_bit_reversal_lookup() -> (table: [u8; 128])
    ensures
        forall|i: int| 0 <= i < 128 ==> table[i] == bitrev7(i as nat),
{
    let mut table = [0u8; 128];
    let mut i: u8 = 0;
    while i < 128
        invariant
            i <= 128,
            forall|k: int| 0 <= k < i ==> table[k] == bitrev7(k as nat),
        decreases 128 - i,
    {
        table[i as usize] = bit_rev(i);
        i += 1;
    }
    table
}

/// One step of square-and-multiply: halving the exponent while squaring the
/// base, and folding the base into the accumulator when the exponent is odd,
/// keeps `acc * base^e` the same modulo `m`.
proof fn lemma_modpow_step(acc: int, b: int, e: nat, m: int)
    requires
        m > 0,
        e > 0,
    ensures
        e % 2 == 1 ==> (((acc * b) % m) * pow((b * b) % m, e / 2)) % m == (acc * pow(b, e)) % m,
        e % 2 == 0 ==> (acc * pow((b * b) % m, e / 2)) % m == (acc * pow(b, e)) % m,
{
    let half = e / 2;
    let sq = pow(b * b, half);
    let sqm = pow((b * b) % m, half);
    assert(pow(b, 2) == b * b) by {
        lemma_pow1(b);
        lemma_pow_adds(b, 1, 1);
    }
    assert(sq == pow(b, 2 * half)) by {
        lemma_pow_multiplies(b, 2, half);
    }
    assert(sqm % m == sq % m) by {
        lemma_pow_mod_noop(b * b, half, m);
    }
    if e % 2 == 1 {
        assert(pow(b, e) == sq * b) by {
            lemma_pow1(b);
            lemma_pow_adds(b, 2 * half, 1);
        }
        assert((acc * b) * sq == acc * pow(b, e)) by (nonlinear_arith)
            requires
                pow(b, e) == sq * b,
        ;
        lemma_mul_mod_noop_general(acc * b, sqm, m);
        lemma_mul_mod_noop_general(acc * b, sq, m);
    } else {
        assert(pow(b, e) == sq);
        lemma_mul_mod_noop_general(acc, sqm, m);
        lemma_mul_mod_noop_general(acc, sq, m);
    }
}

/// `base` to the power `exponent`, reduced modulo `modulus`.
pub fn modpow(base: u8, exponent: u8, modulus: u32) -> (r: u16)
    requires
        0 < modulus <= 0x1_0000,
    ensures
        r == pow(base as int, exponent as nat) % (modulus as int),
{
    let mut result: u32 = 1 % modulus;
    let mut b: u32 = base as u32 % modulus;
    let mut e: u8 = exponent;
    proof {
        lemma_pow_mod_noop(base as int, exponent as nat, modulus as int);
        lemma_mul_mod_noop_general(1, pow(b as int, e as nat), modulus as int);
    }
    while e > 0
        invariant
            0 < modulus <= 0x1_0000,
            result < modulus,
            b < modulus,
            (result * pow(b as int, e as nat)) % (modulus as int) == pow(
                base as int,
                exponent as nat,
            ) % (modulus as int),
        decreases e,
    {
        proof {
            lemma_modpow_step(result as int, b as int, e as nat, modulus as int);
            assert(result * b < 0x1_0000_0000 && b * b < 0x1_0000_0000) by (nonlinear_arith)
                requires
                    result < 0x1_0000,
                    b < 0x1_0000,
            ;
            assert(e >> 1 == e / 2) by (bit_vector);
        }
        if e % 2 == 1 {
            result = (result * b) % modulus;
        }
        e = e >> 1;
        b = (b * b) % modulus;
    }
    proof {
        lemma_pow0(b as int);
        lemma_small_mod(result as nat, modulus as nat);
    }
    result as u16
}

/// The primitive 256th root of unity modulo 3329.
pub const ZETA: u8 = 17;

/// Entry `i` of the table of roots: 17 to the power of the bit reversal of
/// `i`, modulo 3329.
pub open spec fn zeta(i: nat) -> int {
    pow(17, bitrev7(i)) % 3329
}

/// Every entry of the table is a residue modulo 3329, and the first is 1.
pub proof fn lemma_zeta_table(i: nat)
    ensures
        0 <= zeta(i) < 3329,
        zeta(0) == 1,
{
    lemma_pow0(17);
}

/// Entry `i` of the table of roots of unity.
pub fn get_zeta_from_index(i: usize) -> (z: u16)
    requires
        i < 128,
    ensures
        z == zeta(i as nat),
        z < 3329,
{
    modpow(ZETA, bit_rev(i as u8), 3329)
}

/// The block counts of the seven layers of the transform.
pub open spec fn is_block_count(base: nat) -> bool {
    base == 1 || base == 2 || base == 4 || base == 8 || base == 16 || base == 32 || base == 64
}

/// In a layer of `base` blocks, the forward transform gives block `blk` the
/// root number `base + blk` and the inverse transform the root number
/// `2 * base - 1 - blk`. The bit reversals of the two add up to 128.
pub proof fn lemma_bit_rev_partner(base: nat, blk: nat)
    requires
        is_block_count(base),
        blk < base,
    ensures
        bitrev7(base + blk) + bitrev7((2 * base - 1 - blk) as nat) == 128,
{
    let b = base as u8;
    let n = (base + blk) as u8;
    let p = (2 * base - 1 - blk) as u8;
    lemma_bit_rev_u8(n);
    lemma_bit_rev_u8(p);
    let rn = bit_rev_u8(n);
    let rp = bit_rev_u8(p);
    assert(rn + rp == 128) by (bit_vector)
        requires
            b == 1 || b == 2 || b == 4 || b == 8 || b == 16 || b == 32 || b == 64,
            b <= n,
            n < 2 * b,
            p == 3 * b - 1 - n,
            rn == bit_rev_u8(n),
            rp == bit_rev_u8(p),
    ;
}

/// Squaring a power doubles the exponent, also modulo 3329.
proof fn lemma_square_mod(e: nat, r: int)
    requires
        pow(17, e) % 3329 == r,
    ensures
        pow(17, 2 * e) % 3329 == (r * r) % 3329,
{
    lemma_pow_adds(17, e, e);
    lemma_mul_mod_noop_general(pow(17, e), pow(17, e), 3329);
}

/// 17 to the power 128 is minus one modulo 3329: 17 is a primitive 256th
/// root of unity.
pub proof fn lemma_zeta_order()
    ensures
        pow(17, 128) % 3329 == 3328,
{
    lemma_pow1(17);
    lemma_square_mod(1, 17);
    lemma_square_mod(2, 289);
    lemma_square_mod(4, 296);
    lemma_square_mod(8, 1062);
    lemma_square_mod(16, 2642);
    lemma_square_mod(32, 2580);
    lemma_square_mod(64, 1729);
}

/// The roots that the forward and the inverse transform give to the same
/// block multiply to minus one modulo 3329.
pub proof fn lemma_zeta_partner(base: nat, blk: nat)
    requires
        is_block_count(base),
        blk < base,
    ensures
        (zeta(base + blk) * zeta((2 * base - 1 - blk) as nat)) % 3329 == 3328,
{
    let e1 = bitrev7(base + blk);
    let e2 = bitrev7((2 * base - 1 - blk) as nat);
    lemma_bit_rev_partner(base, blk);
    lemma_pow_adds(17, e1, e2);
    lemma_zeta_order();
    lemma_mul_mod_noop_general(pow(17, e1), pow(17, e2), 3329);
}

/// The whole table of roots of unity.
pub fn get_zeta_lut() -> (table: [u16; 128])
    ensures
        forall|i: int| 0 <= i < 128 ==> table[i] == zeta(i as nat),
        forall|i: int| 0 <= i < 128 ==> table[i] < 3329,
        table[0] == 1,
{
    let mut table = [0u16; 128];
    let mut i: usize = 0;
    while i < 128
        invariant
            i <= 128,
            forall|k: int| 0 <= k < i ==> table[k] == zeta(k as nat),
        decreases 128 - i,
    {
        table[i] = get_zeta_from_index(i);
        i += 1;
    }
    proof {
        lemma_zeta_table(0);
    }
    table
}

/// Bit `j` of `byte`, counted from the least significant one.
pub open spec fn bit_at(byte: u8, j: u8) -> u8 {
    (byte >> j) & 1
}

/// The bits of `bytes`: eight per byte, the least significant first.
pub open spec fn bytes_to_bits_spec(bytes: Seq<u8>) -> Seq<u8> {
    Seq::new(8 * bytes.len(), |k: int| bit_at(bytes[k / 8], (k % 8) as u8))
}

/// The first `count` of the eight entries of `bits` from `at` on, each
/// shifted to its place and joined by bitwise or.
pub open spec fn pack_bits(bits: Seq<u8>, at: int, count: nat) -> u8
    decreases count,
{
    if count == 0 {
        0
    } else {
        pack_bits(bits, at, (count - 1) as nat) | (bits[at + count - 1] << ((count - 1) as u8))
    }
}

/// The bytes that `bits` pack into: entry `8 * i + j` becomes bit `j` of
/// byte `i`.
pub open spec fn bits_to_bytes_spec(bits: Seq<u8>) -> Seq<u8> {
    Seq::new(bits.len() / 8, |i: int| pack_bits(bits, 8 * i, 8))
}

/// A bit is zero or one.
pub proof fn lemma_bit_at_is_bit(byte: u8, j: u8)
    ensures
        bit_at(byte, j) == 0 || bit_at(byte, j) == 1,
{
    assert((byte >> j) & 1 == 0 || (byte >> j) & 1 == 1) by (bit_vector);
}

/// Expands every byte into its eight bits, the least significant first.
pub fn bytes_to_bits(bytes: &[u8]) -> (bits: Vec<u8>)
    ensures
        bits@ == bytes_to_bits_spec(bytes@),
        bits@.len() == 8 * bytes@.len(),
{
    let mut bits: Vec<u8> = Vec::new();
    let mut i: usize = 0;
    while i < bytes.len()
        invariant
            i <= bytes@.len(),
            bits@.len() == 8 * i,
            forall|k: int|
                0 <= k < 8 * i ==> bits@[k] == bit_at(#[trigger] bytes@[k / 8], (k % 8) as u8),
        decreases bytes@.len() - i,
    {
        let byte = bytes[i];
        let mut c: u8 = byte;
        let mut j: u8 = 0;
        assert(byte >> 0u8 == byte) by (bit_vector);
        while j < 8
            invariant
                j <= 8,
                i < bytes@.len(),
                byte == bytes@[i as int],
                j < 8 ==> c == byte >> j,
                bits@.len() == 8 * i + j,
                forall|k: int|
                    0 <= k < 8 * i + j ==> bits@[k] == bit_at(
                        #[trigger] bytes@[k / 8],
                        (k % 8) as u8,
                    ),
            decreases 8 - j,
        {
            assert(c % 2 == (byte >> j) & 1 && (j < 7 ==> c >> 1 == byte >> ((j + 1) as u8)))
                by (bit_vector)
                requires
                    j < 8,
                    c == byte >> j,
            ;
            bits.push(c % 2);
            c = c >> 1;
            j += 1;
        }
        i += 1;
    }
    assert(bits@ =~= bytes_to_bits_spec(bytes@));
    bits
}

/// Packs bits into bytes, eight at a time, the least significant first.
pub fn bits_to_bytes(bits: &[u8]) -> (bytes: Vec<u8>)
    requires
        bits@.len() % 8 == 0,
    ensures
        bytes@ == bits_to_bytes_spec(bits@),
        8 * bytes@.len() == bits@.len(),
{
    let count = bits.len() / 8;
    let mut bytes: Vec<u8> = Vec::new();
    let mut i: usize = 0;
    while i < count
        invariant
            i <= count,
            8 * count == bits@.len() <= usize::MAX,
            bytes@.len() == i,
            forall|k: int| 0 <= k < i ==> bytes@[k] == pack_bits(bits@, 8 * k, 8),
        decreases count - i,
    {
        let mut byte: u8 = 0;
        let mut j: u8 = 0;
        while j < 8
            invariant
                j <= 8,
                i < count,
                8 * count <= bits@.len() <= usize::MAX,
                byte == pack_bits(bits@, 8 * i, j as nat),
            decreases 8 - j,
        {
            byte |= bits[8 * i + j as usize] << j;
            j += 1;
        }
        bytes.push(byte);
        i += 1;
    }
    assert(bytes@ =~= bits_to_bytes_spec(bits@));
    bytes
}

/// Packing the eight bits of a byte gives the byte back.
proof fn lemma_pack_bits_of_byte(bits: Seq<u8>, at: int, byte: u8)
    requires
        bits[at] == bit_at(byte, 0),
        bits[at + 1] == bit_at(byte, 1),
        bits[at + 2] == bit_at(byte, 2),
        bits[at + 3] == bit_at(byte, 3),
        bits[at + 4] == bit_at(byte, 4),
        bits[at + 5] == bit_at(byte, 5),
        bits[at + 6] == bit_at(byte, 6),
        bits[at + 7] == bit_at(byte, 7),
    ensures
        pack_bits(bits, at, 8) == byte,
{
    reveal_with_fuel(pack_bits, 9);
    let b0 = bits[at + 0];
    let b1 = bits[at + 1];
    let b2 = bits[at + 2];
    let b3 = bits[at + 3];
    let b4 = bits[at + 4];
    let b5 = bits[at + 5];
    let b6 = bits[at + 6];
    let b7 = bits[at + 7];
    assert((((((((0u8 | (b0 << 0u8)) | (b1 << 1u8)) | (b2 << 2u8)) | (b3 << 3u8)) | (b4 << 4u8)) | (b5
        << 5u8)) | (b6 << 6u8)) | (b7 << 7u8) == byte) by (bit_vector)
        requires
            b0 == (byte >> 0u8) & 1,
            b1 == (byte >> 1u8) & 1,
            b2 == (byte >> 2u8) & 1,
            b3 == (byte >> 3u8) & 1,
            b4 == (byte >> 4u8) & 1,
            b5 == (byte >> 5u8) & 1,
            b6 == (byte >> 6u8) & 1,
            b7 == (byte >> 7u8) & 1,
    ;
}

/// Packing the bits of any bytes gives the bytes back.
pub proof fn lemma_bits_to_bytes_of_bytes_to_bits(bytes: Seq<u8>)
    ensures
        bits_to_bytes_spec(bytes_to_bits_spec(bytes)) == bytes,
{
    let bits = bytes_to_bits_spec(bytes);
    let back = bits_to_bytes_spec(bits);
    assert(back.len() == bytes.len());
    assert forall|i: int| 0 <= i < bytes.len() implies back[i] == bytes[i] by {
        assert(bits[8 * i + 0] == bit_at(bytes[i], 0));
        assert(bits[8 * i + 1] == bit_at(bytes[i], 1));
        assert(bits[8 * i + 2] == bit_at(bytes[i], 2));
        assert(bits[8 * i + 3] == bit_at(bytes[i], 3));
        assert(bits[8 * i + 4] == bit_at(bytes[i], 4));
        assert(bits[8 * i + 5] == bit_at(bytes[i], 5));
        assert(bits[8 * i + 6] == bit_at(bytes[i], 6));
        assert(bits[8 * i + 7] == bit_at(bytes[i], 7));
        lemma_pack_bits_of_byte(bits, 8 * i, bytes[i]);
    }
    assert(back =~= bytes);
}

} // verus!
