//! Length-prefixed framing shared by the reliable stream and the
//! datagram channel: `[u32 big-endian length][body]`, with lengths
//! above a fixed limit treated as a framing error.

use vstd::prelude::*;

use crate::endian::{lemma_u32_be_roundtrip, spec_u32_from_be_bytes, spec_u32_to_be_bytes,
    u32_from_be, u32_to_be_vec};

verus! {

/// The largest body a frame may carry, in bytes (64 MiB).
pub const FRAME_LIMIT: u32 = 67108864;

/// The framed form of a body: its length as four big-endian bytes,
/// then the body itself.
pub open spec fn spec_frame(body: Seq<u8>) -> Seq<u8>
    recommends
        body.len() <= FRAME_LIMIT,
{
    spec_u32_to_be_bytes(body.len() as u32) + body
}

/// What a whole frame parses to: the body, if the leading length is
/// within the limit and matches the remaining byte count exactly.
pub open spec fn spec_parse_frame(data: Seq<u8>) -> Option<Seq<u8>> {
    if data.len() < 4 {
        None
    } else {
        let len = spec_u32_from_be_bytes(data.take(4));
        if len > FRAME_LIMIT || data.len() != len + 4 {
            None
        } else {
            Some(data.skip(4))
        }
    }
}

/// Frames a body for sending; refuses bodies over the limit.
pub fn frame_bytes(body: &Vec<u8>) -> (r: Option<Vec<u8>>)
    ensures
        body@.len() <= FRAME_LIMIT ==> (r matches Some(f) && f@ == spec_frame(body@)),
        body@.len() > FRAME_LIMIT ==> r is None,
{
    if body.len() > FRAME_LIMIT as usize {
        return None;
    }
    let mut f = u32_to_be_vec(body.len() as u32);
    let mut i: usize = 0;
    while i < body.len()
        invariant
            i <= body@.len(),
            body@.len() <= FRAME_LIMIT,
            f@ == spec_u32_to_be_bytes(body@.len() as u32) + body@.take(i as int),
        decreases body@.len() - i,
    {
        f.push(body[i]);
        i += 1;
        proof {
            assert(f@ =~= spec_u32_to_be_bytes(body@.len() as u32) + body@.take(i as int));
        }
    }
    proof {
        assert(body@.take(body@.len() as int) =~= body@);
    }
    Some(f)
}

/// Reads the length prefix of a frame; `None` marks a fatal framing
/// error (short prefix or a length above the limit).
pub fn frame_length(prefix: &Vec<u8>) -> (r: Option<u32>)
    ensures
        r matches Some(len) ==> prefix@.len() >= 4 && len == spec_u32_from_be_bytes(
            prefix@.take(4),
        ) && len <= FRAME_LIMIT,
        r is None ==> prefix@.len() < 4 || spec_u32_from_be_bytes(prefix@.take(4)) > FRAME_LIMIT,
{
    if prefix.len() < 4 {
        return None;
    }
    let len = u32_from_be(prefix[0], prefix[1], prefix[2], prefix[3]);
    proof {
        assert(seq![prefix@[0], prefix@[1], prefix@[2], prefix@[3]] =~= prefix@.take(4));
    }
    if len > FRAME_LIMIT {
        None
    } else {
        Some(len)
    }
}

/// Parses a whole received frame back into its body.
pub fn parse_frame(data: &Vec<u8>) -> (r: Option<Vec<u8>>)
    ensures
        match r {
            Some(body) => spec_parse_frame(data@) == Some(body@),
            None => spec_parse_frame(data@) is None,
        },
{
    if data.len() < 4 {
        return None;
    }
    let len = u32_from_be(data[0], data[1], data[2], data[3]);
    proof {
        assert(seq![data@[0], data@[1], data@[2], data@[3]] =~= data@.take(4));
    }
    if len > FRAME_LIMIT {
        return None;
    }
    if data.len() - 4 != len as usize {
        return None;
    }
    let mut body: Vec<u8> = Vec::new();
    let mut i: usize = 4;
    while i < data.len()
        invariant
            4 <= i <= data@.len(),
            body@ == data@.subrange(4, i as int),
        decreases data@.len() - i,
    {
        body.push(data[i]);
        i += 1;
        proof {
            assert(body@ =~= data@.subrange(4, i as int));
        }
    }
    proof {
        assert(data@.subrange(4, data@.len() as int) =~= data@.skip(4));
    }
    Some(body)
}

/// Framing round trip: any body within the limit is recovered exactly
/// from its framed form.
pub proof fn lemma_frame_roundtrip(body: Seq<u8>)
    requires
        body.len() <= FRAME_LIMIT,
    ensures
        spec_parse_frame(spec_frame(body)) == Some(body),
{
    let framed = spec_frame(body);
    let len32 = body.len() as u32;
    assert(framed.take(4) =~= spec_u32_to_be_bytes(len32));
    lemma_u32_be_roundtrip(len32);
    assert(framed.skip(4) =~= body);
}

} // verus!
