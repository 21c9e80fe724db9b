//! The hash layer: SHA3-256, SHA3-512, SHAKE-128 and SHAKE-256.
//!
//! The four functions are computed by the `sha3` crate. What they return is
//! not restated here: each gets a name, and the contracts of this module say
//! which name, applied to which input, a result equals.

use crate::bytevec::ByteVec;
use sha3::digest::{ExtendableOutput, Update, XofReader};
use sha3::Digest;
use vstd::prelude::*;

verus! {

/// The 32-byte SHA3-256 digest of `input`.
pub uninterp spec fn sha3_256_digest(input: Seq<u8>) -> Seq<u8>;

/// The 64-byte SHA3-512 digest of `input`.
pub uninterp spec fn sha3_512_digest(input: Seq<u8>) -> Seq<u8>;

/// Byte number `i` of the unbounded SHAKE-128 output on `input`.
pub uninterp spec fn shake128_byte(input: Seq<u8>, i: nat) -> u8;

/// Byte number `i` of the unbounded SHAKE-256 output on `input`.
pub uninterp spec fn shake256_byte(input: Seq<u8>, i: nat) -> u8;

/// The first `len` bytes of the SHAKE-256 output on `input`.
pub open spec fn shake256_prefix(input: Seq<u8>, len: nat) -> Seq<u8> {
    Seq::new(len, |i: int| shake256_byte(input, i as nat))
}

/// `Sha3_256::digest` of the `sha3` crate: the one-shot SHA3-256 hash.
/// Trusted: the 32 bytes returned are the digest of exactly the bytes given.
#[verifier::external_body]
fn sha3_256_hash(input: &[u8]) -> (out: [u8; 32])
    ensures
        out@ == sha3_256_digest(input@),
{
    sha3::Sha3_256::digest(input).into()
}

/// `Sha3_512::digest` of the `sha3` crate: the one-shot SHA3-512 hash.
/// Trusted: the 64 bytes returned are the digest of exactly the bytes given.
#[verifier::external_body]
fn sha3_512_hash(input: &[u8]) -> (out: [u8; 64])
    ensures
        out@ == sha3_512_digest(input@),
{
    sha3::Sha3_512::digest(input).into()
}

/// `Shake256` of the `sha3` crate, by `update` and `finalize_xof_into`:
/// absorbs `input` and squeezes `N` bytes. Trusted: byte `i` of the result is
/// byte `i` of the SHAKE-256 output on `input`, whatever `N` is.
#[verifier::external_body]
fn shake256_squeeze<const N: usize>(input: &[u8]) -> (out: [u8; N])
    ensures
        out@ == Seq::new(N as nat, |i: int| shake256_byte(input@, i as nat)),
{
    let mut hasher = sha3::Shake256::default();
    hasher.update(input);
    let mut out = [0u8; N];
    hasher.finalize_xof_into(&mut out);
    out
}

/// A SHAKE-128 output stream that is read front to back.
///
/// It holds the `Shake128Reader` of the `sha3` crate, which Verus cannot be
/// told about (its type is generic over traits of that crate). Two names
/// describe it: the input that was absorbed, and how many bytes of the output
/// have been read so far.
#[verifier::external_body]
pub struct Shake128Stream {
    reader: sha3::Shake128Reader,
}

/// The bytes that the stream absorbed before it was opened for reading.
pub uninterp spec fn stream_input(s: Shake128Stream) -> Seq<u8>;

/// The number of output bytes that have been read from the stream.
pub uninterp spec fn stream_offset(s: Shake128Stream) -> nat;

/// `Shake128::default`, `update` and `finalize_xof` of the `sha3` crate.
/// Trusted: the reader returned stands at the first byte of the SHAKE-128
/// output on `input`.
#[verifier::external_body]
pub(crate) fn shake128_open(input: &[u8]) -> (s: Shake128Stream)
    ensures
        stream_input(s) == input@,
        stream_offset(s) == 0,
{
    let mut hasher = sha3::Shake128::default();
    hasher.update(input);
    Shake128Stream { reader: hasher.finalize_xof() }
}

/// `XofReader::read` of the `sha3` crate, on a buffer of three bytes.
/// Trusted: a read returns the next bytes of the output and moves the reader
/// past them, so that successive reads walk the output without gap or overlap.
#[verifier::external_body]
pub(crate) fn shake128_read3(s: &mut Shake128Stream) -> (out: [u8; 3])
    ensures
        out@ == Seq::new(
            3,
            |i: int| shake128_byte(stream_input(*old(s)), stream_offset(*old(s)) + i as nat),
        ),
        stream_input(*final(s)) == stream_input(*old(s)),
        stream_offset(*final(s)) == stream_offset(*old(s)) + 3,
{
    let mut out = [0u8; 3];
    s.reader.read(&mut out);
    out
}

/// The hash H: SHA3-256, 32 bytes.
pub fn h(s: &[u8]) -> (out: [u8; 32])
    ensures
        out@ == sha3_256_digest(s@),
{
    sha3_256_hash(s)
}

/// The hash J: the first 32 bytes of SHAKE-256.
pub fn j(s: &[u8]) -> (out: [u8; 32])
    ensures
        out@ == shake256_prefix(s@, 32),
{
    shake256_squeeze::<32>(s)
}

/// The two halves of a 64-byte digest.
pub open spec fn split_digest(digest: Seq<u8>) -> (Seq<u8>, Seq<u8>) {
    (digest.subrange(0, 32), digest.subrange(32, 64))
}

/// Cuts a 64-byte digest into its first and its second 32 bytes.
pub fn split_halves(digest: &[u8; 64]) -> (halves: ([u8; 32], [u8; 32]))
    ensures
        (halves.0@, halves.1@) == split_digest(digest@),
{
    let mut left = [0u8; 32];
    let mut right = [0u8; 32];
    let mut i: usize = 0;
    while i < 32
        invariant
            i <= 32,
            forall|k: int| 0 <= k < i ==> left[k] == digest[k],
            forall|k: int| 0 <= k < i ==> right[k] == digest[k + 32],
        decreases 32 - i,
    {
        left[i] = digest[i];
        right[i] = digest[i + 32];
        i += 1;
    }
    assert(left@ =~= digest@.subrange(0, 32));
    assert(right@ =~= digest@.subrange(32, 64));
    (left, right)
}

/// The hash G: SHA3-512, cut into two seeds of 32 bytes each.
pub fn g(c: &[u8]) -> (seeds: ([u8; 32], [u8; 32]))
    ensures
        (seeds.0@, seeds.1@) == split_digest(sha3_512_digest(c@)),
{
    let digest = sha3_512_hash(c);
    split_halves(&digest)
}

/// What the pseudorandom function is fed: the seed, then the counter byte.
pub open spec fn prf_input(s: Seq<u8>, b: u8) -> Seq<u8> {
    s.push(b)
}

/// The output of the pseudorandom function for `eta`: 64 * eta bytes of
/// SHAKE-256 on the seed followed by the counter.
pub open spec fn prf_spec(eta: nat, s: Seq<u8>, b: u8) -> Seq<u8> {
    shake256_prefix(prf_input(s, b), 64 * eta)
}

/// Joins a 32-byte seed and one more byte into a buffer of 33 bytes.
pub fn seed_with_byte(s: &[u8; 32], b: u8) -> (input: [u8; 33])
    ensures
        input@ == s@.push(b),
{
    let mut input = [0u8; 33];
    let mut i: usize = 0;
    while i < 32
        invariant
            i <= 32,
            forall|k: int| 0 <= k < i ==> input[k] == s[k],
        decreases 32 - i,
    {
        input[i] = s[i];
        i += 1;
    }
    input[32] = b;
    assert(input@ =~= s@.push(b));
    input
}

/// The pseudorandom function for a value of eta known only at run time.
pub fn prf_eta(eta: usize, s: [u8; 32], b: u8) -> (out: ByteVec)
    requires
        eta == 2 || eta == 3,
    ensures
        out@ == prf_spec(eta as nat, s@, b),
        eta == 2 <==> out is Vec128,
        eta == 3 <==> out is Vec192,
{
    let input = seed_with_byte(&s, b);
    if eta == 2 {
        ByteVec::Vec128(shake256_squeeze::<128>(input.as_slice()))
    } else {
        ByteVec::Vec192(shake256_squeeze::<192>(input.as_slice()))
    }
}

/// The pseudorandom function PRF: SHAKE-256 on the seed `s` followed by the
/// counter `b`, read for 64 * `ETA` bytes.
pub fn prf<const ETA: usize>(s: [u8; 32], b: u8) -> (out: ByteVec)
    requires
        ETA == 2 || ETA == 3,
    ensures
        out@ == prf_spec(ETA as nat, s@, b),
        ETA == 2 <==> out is Vec128,
        ETA == 3 <==> out is Vec192,
{
    prf_eta(ETA, s, b)
}

} // verus!
