//! Big-endian encoding of 32-bit values, used by both wire framings.

use vstd::prelude::*;

verus! {

/// The four-byte big-endian encoding of a 32-bit value.
pub open spec fn spec_u32_to_be_bytes(n: u32) -> Seq<u8> {
    seq![
        (n >> 24) as u8,
        ((n >> 16) & 0xff) as u8,
        ((n >> 8) & 0xff) as u8,
        (n & 0xff) as u8,
    ]
}

/// The 32-bit value spelled by four big-endian bytes.
pub open spec fn spec_u32_from_be_bytes(b: Seq<u8>) -> u32
    recommends
        b.len() == 4,
{
    (((b[0] as u32) << 24) | ((b[1] as u32) << 16) | ((b[2] as u32) << 8) | (b[3] as u32)) as u32
}

/// Decoding the encoding of a value gives the value back.
pub proof fn lemma_u32_be_roundtrip(n: u32)
    ensures
        spec_u32_from_be_bytes(spec_u32_to_be_bytes(n)) == n,
{
    assert(((((n >> 24) as u8) as u32) << 24 | ((((n >> 16) & 0xff) as u8) as u32) << 16 | ((((n
        >> 8) & 0xff) as u8) as u32) << 8 | (((n & 0xff) as u8) as u32)) == n) by (bit_vector);
}

pub fn u32_to_be_vec(n: u32) -> (r: Vec<u8>)
    ensures
        r@ == spec_u32_to_be_bytes(n),
{
    let mut r: Vec<u8> = Vec::new();
    r.push((n >> 24) as u8);
    r.push(((n >> 16) & 0xff) as u8);
    r.push(((n >> 8) & 0xff) as u8);
    r.push((n & 0xff) as u8);
    proof {
        assert(r@ =~= spec_u32_to_be_bytes(n));
    }
    r
}

pub fn u32_from_be(b0: u8, b1: u8, b2: u8, b3: u8) -> (r: u32)
    ensures
        r == spec_u32_from_be_bytes(seq![b0, b1, b2, b3]),
{
    ((b0 as u32) << 24) | ((b1 as u32) << 16) | ((b2 as u32) << 8) | (b3 as u32)
}

/// The four-byte little-endian encoding of a 32-bit value, as the
/// WAV container uses it.
pub open spec fn spec_u32_to_le_bytes(n: u32) -> Seq<u8> {
    seq![
        (n & 0xff) as u8,
        ((n >> 8) & 0xff) as u8,
        ((n >> 16) & 0xff) as u8,
        (n >> 24) as u8,
    ]
}

/// The two-byte little-endian encoding of a 16-bit value.
pub open spec fn spec_u16_to_le_bytes(n: u16) -> Seq<u8> {
    seq![(n & 0xff) as u8, (n >> 8) as u8]
}

pub fn u32_to_le_vec(n: u32) -> (r: Vec<u8>)
    ensures
        r@ == spec_u32_to_le_bytes(n),
{
    let mut r: Vec<u8> = Vec::new();
    r.push((n & 0xff) as u8);
    r.push(((n >> 8) & 0xff) as u8);
    r.push(((n >> 16) & 0xff) as u8);
    r.push((n >> 24) as u8);
    proof {
        assert(r@ =~= spec_u32_to_le_bytes(n));
    }
    r
}

pub fn u16_to_le_vec(n: u16) -> (r: Vec<u8>)
    ensures
        r@ == spec_u16_to_le_bytes(n),
{
    let mut r: Vec<u8> = Vec::new();
    r.push((n & 0xff) as u8);
    r.push((n >> 8) as u8);
    proof {
        assert(r@ =~= spec_u16_to_le_bytes(n));
    }
    r
}

} // verus!
