//! Wire frames: a 4-byte big-endian length followed by that many bytes of
//! one encoded message.

use vstd::prelude::*;
use crate::codec::append_bytes;

verus! {

/// The 4-byte big-endian form of `x`.
pub open spec fn be32(x: u32) -> Seq<u8> {
    seq![
        ((x >> 24u32) & 0xffu32) as u8,
        ((x >> 16u32) & 0xffu32) as u8,
        ((x >> 8u32) & 0xffu32) as u8,
        (x & 0xffu32) as u8,
    ]
}

/// The number that four big-endian bytes stand for.
pub open spec fn be32_value(b0: u8, b1: u8, b2: u8, b3: u8) -> u32 {
    ((b0 as u32) << 24u32) | ((b1 as u32) << 16u32) | ((b2 as u32) << 8u32) | (b3 as u32)
}

/// The frame that carries `payload`.
pub open spec fn frame(payload: Seq<u8>) -> Seq<u8> {
    be32(payload.len() as u32) + payload
}

/// The payload of a byte string that is exactly one frame, or `None`.
pub open spec fn parse_frame(bytes: Seq<u8>) -> Option<Seq<u8>> {
    if bytes.len() >= 4 && be32_value(bytes[0], bytes[1], bytes[2], bytes[3]) == bytes.len() - 4 {
        Some(bytes.subrange(4, bytes.len() as int))
    } else {
        None
    }
}

/// The header of a frame whose payload has `len` bytes.
pub fn frame_header(len: u32) -> (r: [u8; 4])
    ensures
        r@ == be32(len),
{
    let r = [
        ((len >> 24u32) & 0xffu32) as u8,
        ((len >> 16u32) & 0xffu32) as u8,
        ((len >> 8u32) & 0xffu32) as u8,
        (len & 0xffu32) as u8,
    ];
    assert(r@ =~= be32(len));
    r
}

/// The payload length that a frame header announces.
pub fn frame_length(header: &[u8; 4]) -> (r: u32)
    ensures
        r == be32_value(header@[0], header@[1], header@[2], header@[3]),
{
    ((header[0] as u32) << 24u32) | ((header[1] as u32) << 16u32) | ((header[2] as u32) << 8u32) | (
    header[3] as u32)
}

/// Reading a header back gives the length it was made from.
pub proof fn lemma_header_round_trip(len: u32)
    ensures
        be32_value(be32(len)[0], be32(len)[1], be32(len)[2], be32(len)[3]) == len,
{
    assert(((((((len >> 24u32) & 0xffu32) as u8) as u32) << 24u32) | (((((len >> 16u32) & 0xffu32) as u8) as u32) << 16u32)
        | (((((len >> 8u32) & 0xffu32) as u8) as u32) << 8u32) | (((len & 0xffu32) as u8) as u32)) == len)
        by (bit_vector);
}

/// Parsing the frame of a payload gives the payload back.
pub proof fn lemma_frame_round_trip(payload: Seq<u8>)
    requires
        payload.len() <= u32::MAX,
    ensures
        parse_frame(frame(payload)) == Some(payload),
{
    lemma_header_round_trip(payload.len() as u32);
    assert(frame(payload).subrange(4, frame(payload).len() as int) =~= payload);
}

/// The frame that carries `payload`, or `None` if its length does not fit
/// in the header.
pub fn encode_frame(payload: &[u8]) -> (r: Option<Vec<u8>>)
    ensures
        payload@.len() <= u32::MAX ==> r is Some && r->Some_0@ == frame(payload@),
        payload@.len() > u32::MAX ==> r is None,
{
    if payload.len() > 0xffff_ffffusize {
        return None;
    }
    let header = frame_header(payload.len() as u32);
    let mut out: Vec<u8> = Vec::new();
    append_bytes(&mut out, header.as_slice());
    append_bytes(&mut out, payload);
    Some(out)
}

/// The payload of `bytes` if they are exactly one frame.
pub fn decode_frame(bytes: &[u8]) -> (r: Option<Vec<u8>>)
    ensures
        r is Some <==> parse_frame(bytes@) is Some,
        r is Some ==> r->Some_0@ == parse_frame(bytes@)->Some_0,
{
    if bytes.len() < 4 {
        return None;
    }
    let header: [u8; 4] = [bytes[0], bytes[1], bytes[2], bytes[3]];
    let len = frame_length(&header);
    if len as usize != bytes.len() - 4 {
        return None;
    }
    let mut out: Vec<u8> = Vec::new();
    let mut i: usize = 4;
    while i < bytes.len()
        invariant
            4 <= i <= bytes@.len(),
            out@ == bytes@.subrange(4, i as int),
        decreases bytes@.len() - i,
    {
        out.push(bytes[i]);
        i = i + 1;
        assert(out@ =~= bytes@.subrange(4, i as int));
    }
    Some(out)
}

} // verus!
