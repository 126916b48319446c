//! The wire layout of a frame: a two-byte type, a four-byte length and the
//! payload, integers in network (big-endian) byte order.

use byteorder::{ByteOrder, NetworkEndian};
use vstd::arithmetic::div_mod::{
    lemma_div_denominator, lemma_fundamental_div_mod, lemma_fundamental_div_mod_converse,
};
use vstd::prelude::*;

verus! {

/// The two bytes of `v`, most significant first.
pub open spec fn be16(v: u16) -> Seq<u8> {
    seq![(v / 256) as u8, (v % 256) as u8]
}

/// The four bytes of `v`, most significant first.
pub open spec fn be32(v: u32) -> Seq<u8> {
    seq![
        (v / 0x100_0000) as u8,
        ((v / 0x1_0000) % 256) as u8,
        ((v / 256) % 256) as u8,
        (v % 256) as u8,
    ]
}

/// The number whose big-endian bytes are the first two of `b`.
pub open spec fn from_be16(b: Seq<u8>) -> u16
    recommends
        b.len() >= 2,
{
    (b[0] as int * 256 + b[1] as int) as u16
}

/// The number whose big-endian bytes are the first four of `b`.
pub open spec fn from_be32(b: Seq<u8>) -> u32
    recommends
        b.len() >= 4,
{
    (b[0] as int * 0x100_0000 + b[1] as int * 0x1_0000 + b[2] as int * 256 + b[3] as int) as u32
}

/// Reading back the bytes of a 16-bit number gives the number.
pub proof fn lemma_be16_value(v: u16)
    ensures
        be16(v).len() == 2,
        from_be16(be16(v)) == v,
{
}

/// Writing out the number read from two bytes gives the two bytes.
pub proof fn lemma_be16_bytes(b: Seq<u8>)
    requires
        b.len() == 2,
    ensures
        be16(from_be16(b)) == b,
{
    assert(be16(from_be16(b)) =~= b);
}

/// Reading back the bytes of a 32-bit number gives the number.
pub proof fn lemma_be32_value(v: u32)
    ensures
        be32(v).len() == 4,
        from_be32(be32(v)) == v,
{
    let n = v as int;
    lemma_fundamental_div_mod(n, 256);
    lemma_fundamental_div_mod(n / 256, 256);
    lemma_fundamental_div_mod(n / 0x1_0000, 256);
    assert(n / 256 / 256 == n / 0x1_0000) by {
        lemma_div_denominator(n, 256, 256);
    }
    assert(n / 0x1_0000 / 256 == n / 0x100_0000) by {
        lemma_div_denominator(n, 0x1_0000, 256);
    }
}

/// Writing out the number read from four bytes gives the four bytes.
pub proof fn lemma_be32_bytes(b: Seq<u8>)
    requires
        b.len() == 4,
    ensures
        be32(from_be32(b)) == b,
{
    let b0 = b[0] as int;
    let b1 = b[1] as int;
    let b2 = b[2] as int;
    let b3 = b[3] as int;
    let v = b0 * 0x100_0000 + b1 * 0x1_0000 + b2 * 256 + b3;
    assert(from_be32(b) == v);
    lemma_fundamental_div_mod_converse(v, 0x100_0000, b0, b1 * 0x1_0000 + b2 * 256 + b3);
    lemma_fundamental_div_mod_converse(v, 0x1_0000, b0 * 256 + b1, b2 * 256 + b3);
    lemma_fundamental_div_mod_converse(b0 * 256 + b1, 256, b0, b1);
    lemma_fundamental_div_mod_converse(v, 256, b0 * 0x1_0000 + b1 * 256 + b2, b3);
    lemma_fundamental_div_mod_converse(b0 * 0x1_0000 + b1 * 256 + b2, 256, b0 * 256 + b1, b2);
    assert(be32(from_be32(b)) =~= b);
}

/// `byteorder`'s big-endian `read_u16`: the number held in the first two bytes
/// of `buf`. It panics on a shorter buffer.
pub assume_specification[ <byteorder::BigEndian as ByteOrder>::read_u16 ](buf: &[u8]) -> (v: u16)
    requires
        buf@.len() >= 2,
    ensures
        v == from_be16(buf@),
;

/// `byteorder`'s big-endian `read_u32`: the number held in the first four bytes
/// of `buf`. It panics on a shorter buffer.
pub assume_specification[ <byteorder::BigEndian as ByteOrder>::read_u32 ](buf: &[u8]) -> (v: u32)
    requires
        buf@.len() >= 4,
    ensures
        v == from_be32(buf@),
;

/// `byteorder`'s big-endian `write_u16`: it overwrites the first two bytes of
/// `buf` with those of `n` and leaves the rest. It panics on a shorter buffer.
pub assume_specification[ <byteorder::BigEndian as ByteOrder>::write_u16 ](buf: &mut [u8], n: u16)
    requires
        old(buf)@.len() >= 2,
    ensures
        final(buf)@ == be16(n) + old(buf)@.skip(2),
;

/// `byteorder`'s big-endian `write_u32`: it overwrites the first four bytes of
/// `buf` with those of `n` and leaves the rest. It panics on a shorter buffer.
pub assume_specification[ <byteorder::BigEndian as ByteOrder>::write_u32 ](buf: &mut [u8], n: u32)
    requires
        old(buf)@.len() >= 4,
    ensures
        final(buf)@ == be32(n) + old(buf)@.skip(4),
;

/// The bytes of one frame: type, then length of the payload, then the payload.
pub open spec fn frame(message_type: u16, payload: Seq<u8>) -> Seq<u8>
    recommends
        payload.len() <= u32::MAX,
{
    be16(message_type) + be32(payload.len() as u32) + payload
}

/// The type that the header in `bytes` announces.
pub open spec fn frame_type(bytes: Seq<u8>) -> u16
    recommends
        bytes.len() >= 2,
{
    from_be16(bytes.subrange(0, 2))
}

/// The payload length that the header in `bytes` announces.
pub open spec fn frame_length(bytes: Seq<u8>) -> u32
    recommends
        bytes.len() >= 6,
{
    from_be32(bytes.subrange(2, 6))
}

/// What follows the header in `bytes`.
pub open spec fn frame_payload(bytes: Seq<u8>) -> Seq<u8>
    recommends
        bytes.len() >= 6,
{
    bytes.skip(6)
}

/// Where the field that holds position `at` ends, in a frame whose payload has
/// `length` bytes: after the type, after the length, or after the payload.
pub open spec fn field_end(length: int, at: int) -> int {
    if at < 2 {
        2
    } else if at < 6 {
        6
    } else {
        6 + length
    }
}

/// `bytes` is the front of a frame: either the header is still short, or what
/// follows it does not go beyond the length it announces.
pub open spec fn frame_prefix(bytes: Seq<u8>) -> bool {
    bytes.len() >= 6 ==> bytes.len() <= 6 + frame_length(bytes)
}

/// `bytes` is exactly one frame.
pub open spec fn frame_complete(bytes: Seq<u8>) -> bool {
    bytes.len() >= 6 && bytes.len() == 6 + frame_length(bytes)
}

/// How many bytes the field under way still takes after `bytes` has come in;
/// zero once the frame is complete.
pub open spec fn frame_need(bytes: Seq<u8>) -> int
    recommends
        frame_prefix(bytes),
{
    if bytes.len() < 6 {
        field_end(0, bytes.len() as int) - bytes.len()
    } else {
        6 + frame_length(bytes) - bytes.len()
    }
}

/// Round trip: a frame read back gives the type, the length and the payload
/// that it was made of, whatever the type and for every payload whose length
/// fits the length field.
pub proof fn lemma_frame_round_trip(message_type: u16, payload: Seq<u8>)
    requires
        payload.len() <= u32::MAX,
    ensures
        frame(message_type, payload).len() == 6 + payload.len(),
        frame_complete(frame(message_type, payload)),
        frame_type(frame(message_type, payload)) == message_type,
        frame_length(frame(message_type, payload)) == payload.len(),
        frame_payload(frame(message_type, payload)) == payload,
{
    let whole = frame(message_type, payload);
    lemma_be16_value(message_type);
    lemma_be32_value(payload.len() as u32);
    assert(whole.subrange(0, 2) =~= be16(message_type));
    assert(whole.subrange(2, 6) =~= be32(payload.len() as u32));
    assert(whole.skip(6) =~= payload);
}

/// Frames with the same bytes carry the same type and the same payload.
pub proof fn lemma_frame_injective(
    message_type: u16,
    payload: Seq<u8>,
    other_type: u16,
    other_payload: Seq<u8>,
)
    requires
        payload.len() <= u32::MAX,
        other_payload.len() <= u32::MAX,
        frame(message_type, payload) == frame(other_type, other_payload),
    ensures
        message_type == other_type,
        payload == other_payload,
{
    lemma_frame_round_trip(message_type, payload);
    lemma_frame_round_trip(other_type, other_payload);
}

/// The first `cut` bytes of a frame, for every place to cut it: they are the
/// front of a frame; they are a whole frame only when nothing was cut off;
/// until then the field under way asks for at least one byte and for no more
/// than the frame still has.
pub proof fn lemma_frame_cut(message_type: u16, payload: Seq<u8>, cut: int)
    requires
        payload.len() <= u32::MAX,
        0 <= cut <= 6 + payload.len(),
    ensures
        frame_prefix(frame(message_type, payload).take(cut)),
        frame_complete(frame(message_type, payload).take(cut)) <==> cut == 6 + payload.len(),
        cut < 6 + payload.len() ==> 1 <= frame_need(frame(message_type, payload).take(cut)) <= 6
            + payload.len() - cut,
        cut == 6 + payload.len() ==> frame_need(frame(message_type, payload).take(cut)) == 0,
{
    let whole = frame(message_type, payload);
    let front = whole.take(cut);
    lemma_frame_round_trip(message_type, payload);
    if cut >= 6 {
        assert(front.subrange(2, 6) =~= whole.subrange(2, 6));
    }
}

/// A model of polling: what a reader holds after it has polled, until
/// nothing is left, a source that hands out `input`. Each poll takes as much
/// as the field under way asks for, or what is left of `input` if that is
/// less; a whole frame takes no more. A real source may hand over less at a
/// poll; what a reader then holds is still what came in before, then what
/// was handed over, as the contracts of `AsyncReader` state.
pub open spec fn absorb(consumed: Seq<u8>, input: Seq<u8>) -> Seq<u8>
    decreases input.len(),
{
    let wanted = frame_need(consumed);
    if input.len() == 0 || wanted <= 0 {
        consumed
    } else {
        let count = if wanted <= input.len() {
            wanted
        } else {
            input.len() as int
        };
        absorb(consumed + input.take(count), input.skip(count))
    }
}

/// Polling a source that hands out the bytes of a frame from `from` up to
/// `to`, after the bytes before `from` have come in, brings in the bytes
/// before `to`.
proof fn lemma_absorb_part(message_type: u16, payload: Seq<u8>, from: int, to: int)
    requires
        payload.len() <= u32::MAX,
        0 <= from <= to <= 6 + payload.len(),
    ensures
        absorb(
            frame(message_type, payload).take(from),
            frame(message_type, payload).subrange(from, to),
        ) == frame(message_type, payload).take(to),
    decreases to - from,
{
    let whole = frame(message_type, payload);
    let consumed = whole.take(from);
    let input = whole.subrange(from, to);
    lemma_frame_round_trip(message_type, payload);
    lemma_frame_cut(message_type, payload, from);
    if from == to {
        assert(consumed =~= whole.take(to));
    } else {
        let wanted = frame_need(consumed);
        let count = if wanted <= input.len() {
            wanted
        } else {
            input.len() as int
        };
        assert(consumed + input.take(count) =~= whole.take(from + count));
        assert(input.skip(count) =~= whole.subrange(from + count, to));
        lemma_absorb_part(message_type, payload, from + count, to);
    }
}

/// Resumability, in the model of `absorb`: cut the bytes of a frame in two
/// at any place and let a fresh reader poll the first part until it is used
/// up, then the second; it ends with the very bytes that it has after
/// polling the frame in one piece, and these are the frame.
pub proof fn lemma_resumable(message_type: u16, payload: Seq<u8>, cut: int)
    requires
        payload.len() <= u32::MAX,
        0 <= cut <= 6 + payload.len(),
    ensures
        absorb(Seq::empty(), frame(message_type, payload)) == frame(message_type, payload),
        absorb(
            absorb(Seq::empty(), frame(message_type, payload).take(cut)),
            frame(message_type, payload).skip(cut),
        ) == frame(message_type, payload),
{
    let whole = frame(message_type, payload);
    lemma_frame_round_trip(message_type, payload);
    assert(whole.take(0) =~= Seq::<u8>::empty());
    assert(whole.subrange(0, whole.len() as int) =~= whole);
    assert(whole.take(whole.len() as int) =~= whole);
    assert(whole.take(cut) =~= whole.subrange(0, cut));
    assert(whole.skip(cut) =~= whole.subrange(cut, whole.len() as int));
    lemma_absorb_part(message_type, payload, 0, whole.len() as int);
    lemma_absorb_part(message_type, payload, 0, cut);
    lemma_absorb_part(message_type, payload, cut, whole.len() as int);
}

} // verus!
