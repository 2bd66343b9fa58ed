//! Length-prefixed framing: every argument of a request and every reply is
//! sent as a 4-byte little-endian length followed by that many bytes.
use crate::error::KvError;
use std::string::FromUtf8Error;
use vstd::bytes::lemma_auto_spec_u32_to_from_le_bytes;
use vstd::bytes::spec_u32_from_le_bytes;
use vstd::bytes::spec_u32_to_le_bytes;
use vstd::bytes::u32_from_le_bytes;
use vstd::bytes::u32_to_le_bytes;
use vstd::prelude::*;
use vstd::utf8::decode_utf8;
use vstd::utf8::encode_utf8;
use vstd::utf8::valid_utf8;

verus! {

/// Number of bytes of the length that precedes every payload.
pub const HEADER_SIZE: usize = 4;

/// The frame that carries `payload`: its length as 4 little-endian bytes
/// (taken modulo 2^32), then the payload itself.
pub open spec fn frame(payload: Seq<u8>) -> Seq<u8> {
    spec_u32_to_le_bytes(payload.len() as u32) + payload
}

/// The length announced by the 4 bytes of `buf` starting at `start`.
pub open spec fn header_at(buf: Seq<u8>, start: int) -> u32 {
    spec_u32_from_le_bytes(buf.subrange(start, start + HEADER_SIZE as int))
}

/// The payload of the frame that starts at `start` in `buf`, if `buf` holds
/// all of it; `None` while the header or the payload is still incomplete.
pub open spec fn frame_at(buf: Seq<u8>, start: int) -> Option<Seq<u8>> {
    if buf.len() < start + HEADER_SIZE {
        None
    } else if buf.len() < start + HEADER_SIZE + header_at(buf, start) {
        None
    } else {
        Some(
            buf.subrange(
                start + HEADER_SIZE as int,
                start + HEADER_SIZE + header_at(buf, start),
            ),
        )
    }
}

/// What a frame is: 4 header bytes that a reader decodes, little-endian,
/// to the payload's length (modulo 2^32), then the payload itself,
/// byte for byte.
pub proof fn law_frame_layout(payload: Seq<u8>)
    ensures
        frame(payload).len() == HEADER_SIZE + payload.len(),
        spec_u32_from_le_bytes(frame(payload).take(HEADER_SIZE as int)) == payload.len() as u32,
        frame(payload).skip(HEADER_SIZE as int) == payload,
        payload.len() <= u32::MAX ==> spec_u32_from_le_bytes(frame(payload).take(HEADER_SIZE as int))
            == payload.len(),
{
    lemma_auto_spec_u32_to_from_le_bytes();
    let hdr = spec_u32_to_le_bytes(payload.len() as u32);
    assert(frame(payload).take(4) =~= hdr);
    assert(frame(payload).skip(4) =~= payload);
}

/// What a reader takes from a buffer at `start`: a payload is read exactly
/// when the 4 bytes there and as many bytes after them as those 4 bytes
/// announce (decoded little-endian) have arrived, and then it is those
/// announced bytes, unchanged.
pub proof fn law_frame_at_reads_announced_bytes(buf: Seq<u8>, start: int)
    requires
        0 <= start,
    ensures
        frame_at(buf, start) matches Some(p) ==> {
            &&& start + HEADER_SIZE + p.len() <= buf.len()
            &&& spec_u32_from_le_bytes(buf.subrange(start, start + HEADER_SIZE as int)) == p.len()
            &&& buf.subrange(start + HEADER_SIZE as int, start + HEADER_SIZE + p.len()) == p
        },
        start + HEADER_SIZE <= buf.len() && start + HEADER_SIZE + spec_u32_from_le_bytes(
            buf.subrange(start, start + HEADER_SIZE as int),
        ) <= buf.len() ==> frame_at(buf, start) is Some,
{
}

/// A frame is its payload and the 4 bytes of its header.
pub proof fn lemma_frame_len(payload: Seq<u8>)
    ensures
        frame(payload).len() == HEADER_SIZE + payload.len(),
{
    lemma_auto_spec_u32_to_from_le_bytes();
    assert(spec_u32_to_le_bytes(payload.len() as u32).len() == 4);
}

/// A frame read back from the front of any buffer that starts with it gives
/// back its payload, whatever follows it.
pub proof fn lemma_frame_at_frame(payload: Seq<u8>, prefix: Seq<u8>, rest: Seq<u8>)
    requires
        payload.len() <= u32::MAX,
    ensures
        frame_at(prefix + frame(payload) + rest, prefix.len() as int) == Some(payload),
{
    lemma_auto_spec_u32_to_from_le_bytes();
    let buf = prefix + frame(payload) + rest;
    let p = prefix.len() as int;
    let hdr = spec_u32_to_le_bytes(payload.len() as u32);
    assert(buf.subrange(p, p + 4) =~= hdr);
    assert(header_at(buf, p) == payload.len());
    assert(buf.subrange(p + 4, p + 4 + payload.len()) =~= payload);
}

/// A payload that can be read from a buffer can still be read, the same,
/// once more bytes have arrived behind it; and it lies within the buffer.
pub proof fn lemma_frame_at_extend(buf: Seq<u8>, start: int, more: Seq<u8>)
    requires
        0 <= start,
        frame_at(buf, start) is Some,
    ensures
        frame_at(buf + more, start) == frame_at(buf, start),
        start + HEADER_SIZE + frame_at(buf, start).unwrap().len() <= buf.len(),
{
    let whole = buf + more;
    assert(whole.subrange(start, start + HEADER_SIZE as int) =~= buf.subrange(
        start,
        start + HEADER_SIZE as int,
    ));
    let end = start + HEADER_SIZE + header_at(buf, start);
    assert(whole.subrange(start + HEADER_SIZE as int, end) =~= buf.subrange(
        start + HEADER_SIZE as int,
        end,
    ));
}

/// While only part of a frame has arrived, no payload can be read from it.
pub proof fn lemma_frame_at_partial(payload: Seq<u8>, prefix: Seq<u8>, partial: Seq<u8>)
    requires
        payload.len() <= u32::MAX,
        partial.len() < frame(payload).len(),
        partial == frame(payload).take(partial.len() as int),
    ensures
        frame_at(prefix + partial, prefix.len() as int) is None,
{
    lemma_auto_spec_u32_to_from_le_bytes();
    let buf = prefix + partial;
    let p = prefix.len() as int;
    if partial.len() >= HEADER_SIZE {
        let hdr = spec_u32_to_le_bytes(payload.len() as u32);
        assert(buf.subrange(p, p + 4) =~= hdr);
        assert(header_at(buf, p) == payload.len());
    }
}

/// A reply read back by a client, its length from the header and then that
/// many bytes decoded as UTF-8, is the message that was framed.
pub proof fn lemma_reply_roundtrip(message: Seq<char>, rest: Seq<u8>)
    requires
        encode_utf8(message).len() <= u32::MAX,
    ensures
        frame_at(frame(encode_utf8(message)) + rest, 0) == Some(encode_utf8(message)),
        valid_utf8(encode_utf8(message)),
        decode_utf8(encode_utf8(message)) == message,
{
    broadcast use vstd::utf8::encode_utf8_valid_utf8, vstd::utf8::encode_utf8_decode_utf8;

    let bytes = encode_utf8(message);
    lemma_frame_at_frame(bytes, Seq::empty(), rest);
    assert(Seq::<u8>::empty() + frame(bytes) + rest =~= frame(bytes) + rest);
}

/// Appends the bytes of `src` to `dst`.
pub fn append_bytes(dst: &mut Vec<u8>, src: &[u8])
    ensures
        final(dst)@ == old(dst)@ + src@,
{
    let ghost before = dst@;
    let mut i: usize = 0;
    while i < src.len()
        invariant
            i <= src@.len(),
            dst@ == before + src@.subrange(0, i as int),
        decreases src@.len() - i,
    {
        dst.push(src[i]);
        i = i + 1;
        assert(dst@ =~= before + src@.subrange(0, i as int));
    }
    assert(src@.subrange(0, src@.len() as int) =~= src@);
}

/// Frames `payload` for the wire. Fails when its length does not fit in the
/// 4-byte header.
pub fn frame_bytes(payload: &[u8]) -> (result: Result<Vec<u8>, KvError>)
    ensures
        match result {
            Ok(bytes) => {
                &&& payload@.len() <= u32::MAX
                &&& bytes@ == frame(payload@)
                &&& bytes@.len() == HEADER_SIZE + payload@.len()
                &&& spec_u32_from_le_bytes(bytes@.take(HEADER_SIZE as int)) == payload@.len()
                &&& bytes@.skip(HEADER_SIZE as int) == payload@
            },
            Err(e) => e == KvError::MessageTooLong && payload@.len() > u32::MAX,
        },
{
    proof {
        law_frame_layout(payload@);
    }
    let n = payload.len();
    if n > (u32::MAX as usize) {
        return Err(KvError::MessageTooLong);
    }
    let mut bytes = u32_to_le_bytes(n as u32);
    append_bytes(&mut bytes, payload);
    Ok(bytes)
}

/// Frames the UTF-8 bytes of `message`: the reply that carries it.
pub fn frame_message(message: &str) -> (result: Result<Vec<u8>, KvError>)
    ensures
        match result {
            Ok(bytes) => {
                &&& encode_utf8(message@).len() <= u32::MAX
                &&& bytes@ == frame(encode_utf8(message@))
                &&& spec_u32_from_le_bytes(bytes@.take(HEADER_SIZE as int)) == encode_utf8(
                    message@,
                ).len()
                &&& bytes@.skip(HEADER_SIZE as int) == encode_utf8(message@)
            },
            Err(e) => e == KvError::MessageTooLong && encode_utf8(message@).len() > u32::MAX,
        },
{
    frame_bytes(message.as_bytes())
}

/// The payload length announced by a 4-byte header.
pub fn frame_length(header: &[u8]) -> (len: u32)
    requires
        header@.len() == HEADER_SIZE,
    ensures
        len == spec_u32_from_le_bytes(header@),
{
    u32_from_le_bytes(header)
}

/// Declares std's `FromUtf8Error` to Verus as an opaque type: nothing is
/// claimed of what it holds.
#[verifier::external_type_specification]
#[verifier::external_body]
pub struct ExFromUtf8Error(FromUtf8Error);

/// Calls `String::from_utf8`, which succeeds exactly when `bytes` is valid
/// UTF-8 and then holds the characters those bytes encode.
#[verifier::external_body]
fn string_from_utf8(bytes: Vec<u8>) -> (result: Result<String, FromUtf8Error>)
    ensures
        result is Ok <==> valid_utf8(bytes@),
        result matches Ok(s) ==> s@ == decode_utf8(bytes@),
{
    String::from_utf8(bytes)
}

/// Decodes the payload of a frame into the message it carries.
pub fn decode_message(bytes: Vec<u8>) -> (result: Result<String, KvError>)
    ensures
        match result {
            Ok(s) => valid_utf8(bytes@) && s@ == decode_utf8(bytes@),
            Err(e) => e == KvError::InvalidUtf8 && !valid_utf8(bytes@),
        },
{
    match string_from_utf8(bytes) {
        Ok(s) => Ok(s),
        Err(_) => Err(KvError::InvalidUtf8),
    }
}

} // verus!
