//! The byte block that the pseudorandom function hands to the binomial sampler.

use vstd::prelude::*;

verus! {

/// A block of 128 bytes (for eta = 2) or of 192 bytes (for eta = 3).
#[derive(Clone, Copy, Debug)]
pub enum ByteVec {
    Vec128([u8; 128]),
    Vec192([u8; 192]),
}

impl View for ByteVec {
    type V = Seq<u8>;

    /// The bytes of the block, in order.
    open spec fn view(&self) -> Seq<u8> {
        match *self {
            ByteVec::Vec128(bytes) => bytes@,
            ByteVec::Vec192(bytes) => bytes@,
        }
    }
}

impl ByteVec {
    /// The number of bytes in the block: 128 or 192.
    pub fn len(&self) -> (n: usize)
        ensures
            n == self@.len(),
            self is Vec128 <==> n == 128,
            self is Vec192 <==> n == 192,
    {
        match self {
            ByteVec::Vec128(_) => 128,
            ByteVec::Vec192(_) => 192,
        }
    }

    /// The byte at position `i`.
    pub fn get(&self, i: usize) -> (b: u8)
        requires
            i < self@.len(),
        ensures
            b == self@[i as int],
    {
        match self {
            ByteVec::Vec128(bytes) => bytes[i],
            ByteVec::Vec192(bytes) => bytes[i],
        }
    }

    /// The block as a slice of bytes.
    pub fn as_slice(&self) -> (s: &[u8])
        ensures
            s@ == self@,
    {
        match self {
            ByteVec::Vec128(bytes) => bytes.as_slice(),
            ByteVec::Vec192(bytes) => bytes.as_slice(),
        }
    }
}

} // verus!
