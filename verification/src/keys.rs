//! Byte-key encoding for the cache interface: a 64-bit identifier as an
//! 8-byte big-endian key, and the decoding back.

use vstd::prelude::*;

verus! {

/// The big-endian bytes of an identifier, most significant byte first.
pub open spec fn spec_be_bytes(x: i64) -> Seq<u8> {
    let u = x as u64;
    seq![
        (u >> 56) as u8,
        (u >> 48) as u8,
        (u >> 40) as u8,
        (u >> 32) as u8,
        (u >> 24) as u8,
        (u >> 16) as u8,
        (u >> 8) as u8,
        u as u8,
    ]
}

/// The identifier read back from at least 8 bytes, most significant first.
pub open spec fn spec_be_decode(b: Seq<u8>) -> i64 {
    (((b[0] as u64) << 56) | ((b[1] as u64) << 48) | ((b[2] as u64) << 40) | ((b[3] as u64) << 32)
        | ((b[4] as u64) << 24) | ((b[5] as u64) << 16) | ((b[6] as u64) << 8) | (b[7] as u64)) as i64
}

/// A 64-bit identifier in its role as a byte key.
#[derive(Debug, Eq, Hash, PartialEq, Structural, Clone, Copy)]
pub struct Long(pub i64);

impl Long {
    /// Reads a key back from its byte form; the first 8 bytes decide.
    pub fn from_u8(other: &[u8]) -> (r: Long)
        requires
            other@.len() >= 8,
        ensures
            r == Long(spec_be_decode(other@)),
    {
        let inner = ((other[0] as u64) << 56) | ((other[1] as u64) << 48)
            | ((other[2] as u64) << 40) | ((other[3] as u64) << 32) | ((other[4] as u64) << 24)
            | ((other[5] as u64) << 16) | ((other[6] as u64) << 8) | (other[7] as u64);
        Long(inner as i64)
    }

    /// The 8-byte big-endian form of the key.
    pub fn be_bytes(&self) -> (r: Vec<u8>)
        ensures
            r@ == spec_be_bytes(self.0),
    {
        let u = self.0 as u64;
        let mut r: Vec<u8> = Vec::new();
        r.push((u >> 56) as u8);
        r.push((u >> 48) as u8);
        r.push((u >> 40) as u8);
        r.push((u >> 32) as u8);
        r.push((u >> 24) as u8);
        r.push((u >> 16) as u8);
        r.push((u >> 8) as u8);
        r.push(u as u8);
        proof {
            assert(r@ =~= spec_be_bytes(self.0));
        }
        r
    }
}

/// Encoding a key and reading it back yields the key unchanged.
pub proof fn lemma_long_round_trip(x: i64)
    ensures
        spec_be_decode(spec_be_bytes(x)) == x,
{
    let u = x as u64;
    let b = spec_be_bytes(x);
    assert(((((u >> 56) as u8) as u64) << 56) | ((((u >> 48) as u8) as u64) << 48)
        | ((((u >> 40) as u8) as u64) << 40) | ((((u >> 32) as u8) as u64) << 32)
        | ((((u >> 24) as u8) as u64) << 24) | ((((u >> 16) as u8) as u64) << 16)
        | ((((u >> 8) as u8) as u64) << 8) | ((u as u8) as u64) == u) by (bit_vector);
    assert(b[7] == u as u8);
    assert(x as u64 as i64 == x) by (bit_vector);
}

} // verus!
