//! The message that travels in one frame.

use crate::wire::{
    be16, be32, frame, from_be16, from_be32, lemma_be16_bytes, lemma_be32_bytes,
    lemma_frame_injective,
};
use crate::reader::{AsyncReadResult, AsyncReader};
use crate::transfer::{moved_bytes, Async, AsyncRead, AsyncResult, AsyncWrite, Recorded};
use crate::writer::{queued, AsyncWriteResult, AsyncWriter};
use byteorder::{ByteOrder, NetworkEndian};
use vstd::prelude::*;

verus! {

/// What a message says: its type and its payload. The length on the wire is
/// the length of the payload.
pub struct MessageView {
    pub message_type: u16,
    pub payload: Seq<u8>,
}

/// A message as it is kept in memory: the two header fields in wire order, and
/// the payload.
#[derive(Debug)]
pub struct Message {
    message_type: [u8; 2],
    length: [u8; 4],
    data: Vec<u8>,
}

impl View for Message {
    type V = MessageView;

    closed spec fn view(&self) -> MessageView {
        MessageView { message_type: from_be16(self.message_type@), payload: self.data@ }
    }
}

/// The part of `bytes`, one frame, from position `at` to the end of the field
/// that holds `at`; empty at the end of the frame and beyond it.
pub open spec fn field_rest(bytes: Seq<u8>, at: int) -> Seq<u8> {
    if at < 2 {
        bytes.subrange(at, 2)
    } else if at < 6 {
        bytes.subrange(at, 6)
    } else if at <= bytes.len() {
        bytes.subrange(at, bytes.len() as int)
    } else {
        Seq::empty()
    }
}

/// The wire bytes of `messages`, one frame after the other.
pub open spec fn frames(messages: Seq<Message>) -> Seq<u8> {
    messages.map_values(|message: Message| message.wire()).flatten()
}

/// Order: the frames of a list with one message more at its end are the
/// frames of the list, then the frame of that message.
pub proof fn lemma_frames_push(messages: Seq<Message>, last: Message)
    ensures
        frames(messages.push(last)) == frames(messages) + last.wire(),
{
    let wire = |message: Message| message.wire();
    assert(messages.push(last).map_values(wire) =~= messages.map_values(wire).push(last.wire()));
    messages.map_values(wire).lemma_flatten_push(last.wire());
}

/// Round trip: a message whose wire bytes are those of `sent` has the type,
/// the length and the payload of `sent`.
pub proof fn lemma_round_trip(sent: Message, received: Message)
    requires
        sent.wf(),
        received.wf(),
        received.wire() == sent.wire(),
    ensures
        received@ == sent@,
        received@.payload.len() == sent@.payload.len(),
{
    sent.lemma_stored();
    received.lemma_stored();
    lemma_frame_injective(
        sent@.message_type,
        sent@.payload,
        received@.message_type,
        received@.payload,
    );
}

impl Message {
    /// The length field agrees with the payload.
    pub closed spec fn wf(&self) -> bool {
        from_be32(self.length@) == self.data@.len()
    }

    /// The bytes of this message on the wire.
    pub open spec fn wire(&self) -> Seq<u8> {
        frame(self@.message_type, self@.payload)
    }

    /// The three buffers, one after the other.
    pub(crate) closed spec fn stored(&self) -> Seq<u8> {
        self.message_type@ + self.length@ + self.data@
    }

    /// A well-formed message holds its own wire bytes.
    pub(crate) proof fn lemma_stored(&self)
        requires
            self.wf(),
        ensures
            self.stored() == self.wire(),
            self@.payload.len() <= u32::MAX,
            self.wire().len() == 6 + self@.payload.len(),
    {
        lemma_be16_bytes(self.message_type@);
        lemma_be32_bytes(self.length@);
        assert(self.stored() =~= self.wire());
    }

    /// A message of the given type around `data`, whose length `length` states.
    pub fn new(message_type: u16, length: u32, data: Vec<u8>) -> (message: Message)
        requires
            data@.len() == length,
        ensures
            message.wf(),
            message@.message_type == message_type,
            message@.payload == data@,
    {
        let mut type_buffer: [u8; 2] = [0;2];
        NetworkEndian::write_u16(&mut type_buffer, message_type);
        let mut length_buffer: [u8; 4] = [0;4];
        NetworkEndian::write_u32(&mut length_buffer, length);
        proof {
            assert(type_buffer@ =~= be16(message_type));
            assert(length_buffer@ =~= be32(length));
        }
        Message { message_type: type_buffer, length: length_buffer, data }
    }

    /// Puts together a message from its three buffers.
    pub(crate) fn from_parts(message_type: [u8; 2], length: [u8; 4], data: Vec<u8>) -> (message:
        Message)
        requires
            from_be32(length@) == data@.len(),
        ensures
            message.wf(),
            message.wire() == message_type@ + length@ + data@,
    {
        let message = Message { message_type, length, data };
        proof {
            message.lemma_stored();
        }
        message
    }

    /// The type of the message.
    pub fn message_type(&self) -> (message_type: u16)
        ensures
            message_type == self@.message_type,
    {
        NetworkEndian::read_u16(&self.message_type)
    }

    /// The length of the payload, as the header states it.
    pub fn length(&self) -> (length: u32)
        requires
            self.wf(),
        ensures
            length == self@.payload.len(),
    {
        NetworkEndian::read_u32(&self.length)
    }

    /// The payload.
    pub fn data(&self) -> (data: &[u8])
        ensures
            data@ == self@.payload,
    {
        self.data.as_slice()
    }

    /// The bytes to send next when `location` bytes of the frame are out: the
    /// rest of the field that holds `location`.
    pub fn get_data(&self, location: u64) -> (chunk: &[u8])
        requires
            self.wf(),
        ensures
            chunk@ == field_rest(self.wire(), location as int),
    {
        proof {
            self.lemma_stored();
        }
        if location < 2 {
            let chunk = vstd::slice::slice_subrange(self.message_type.as_slice(), location as usize, 2);
            assert(chunk@ =~= field_rest(self.wire(), location as int));
            chunk
        } else if location < 6 {
            let chunk = vstd::slice::slice_subrange(self.length.as_slice(), (location - 2) as usize, 4);
            assert(chunk@ =~= field_rest(self.wire(), location as int));
            chunk
        } else {
            let size = self.data.len();
            let offset = location - 6;
            let start = if offset > size as u64 { size } else { offset as usize };
            let chunk = vstd::slice::slice_subrange(self.data.as_slice(), start, size);
            assert(chunk@ =~= field_rest(self.wire(), location as int));
            chunk
        }
    }
}

impl Message {
    /// Reads a message from `reader`, as far as the source goes without
    /// blocking: one round of a fresh `AsyncReader`. The bytes of a message
    /// that comes out are what the source handed over. Where the source runs
    /// dry first, the reader comes back, holding what was handed over, for the
    /// caller to go on with. Where the peer closed its side or an error came,
    /// what was handed over is lost. The last answer of the source decides
    /// the end: bytes, and the message is whole; none for now, and the reader
    /// comes back; zero bytes, and the peer has closed; an error, and that
    /// error comes out. Every end but a message comes with exactly one
    /// attempt at which the source gave no byte, the last.
    pub fn from_reader<R: AsyncRead>(reader: &mut Recorded<R>) -> (result: Result<
        AsyncReadResult,
        std::io::Error,
    >)
        ensures
            final(reader).taken() == old(reader).taken(),
            final(reader).writes() == old(reader).writes(),
            final(reader).empty_writes() == old(reader).empty_writes(),
            final(reader).reads() > old(reader).reads(),
            old(reader).handed().is_prefix_of(final(reader).handed()),
            final(reader).last_read() is Some,
            match final(reader).last_read()->0 {
                AsyncResult::Success(Async::Ready(count)) => if count > 0 {
                    &&& result matches Ok(AsyncReadResult::Ready(message))
                    &&& message.wf()
                    &&& final(reader).handed() == old(reader).handed() + message.wire()
                    &&& final(reader).empty_reads() == old(reader).empty_reads()
                } else {
                    &&& result matches Ok(AsyncReadResult::Closed)
                    &&& final(reader).empty_reads() == old(reader).empty_reads() + 1
                },
                AsyncResult::Success(Async::NotReady) => {
                    &&& result matches Ok(AsyncReadResult::NotReady(rest))
                    &&& rest.wf()
                    &&& !rest.spec_done()
                    &&& !rest.is_complete()
                    &&& final(reader).handed() == old(reader).handed() + rest@
                    &&& final(reader).empty_reads() == old(reader).empty_reads() + 1
                },
                AsyncResult::Failure(error) => {
                    &&& result == Err::<AsyncReadResult, std::io::Error>(error)
                    &&& final(reader).empty_reads() == old(reader).empty_reads() + 1
                },
            },
    {
        let mut decoder = AsyncReader::new();
        decoder.async_read_round(reader);
        proof {
            assert(decoder@.skip(0) =~= decoder@);
        }
        decoder.finish()
    }

    /// Writes this message to `writer`, as far as the sink goes without
    /// blocking: one round of an `AsyncWriter`. When the call reports the
    /// frame out, the sink has taken all of it. Where the sink is full
    /// first, the writer comes back, with the message and the count of what
    /// the sink has taken, for the caller to go on with. Whatever the end,
    /// the sink has taken a front part of the frame and nothing else. The
    /// last answer of the sink decides the end: bytes taken, and the frame is
    /// out; no room for now, or nothing taken, and the writer comes back; an
    /// error, and that error comes out. Every end but the frame out comes
    /// with exactly one attempt at which the sink took no byte, the last.
    pub fn into_writer<W: AsyncWrite>(self, writer: &mut Recorded<W>) -> (result: Result<
        AsyncWriteResult,
        std::io::Error,
    >)
        requires
            self.wf(),
        ensures
            final(writer).handed() == old(writer).handed(),
            final(writer).reads() == old(writer).reads(),
            final(writer).empty_reads() == old(writer).empty_reads(),
            final(writer).writes() > old(writer).writes(),
            old(writer).taken().is_prefix_of(final(writer).taken()),
            final(writer).taken().skip(old(writer).taken().len() as int).is_prefix_of(self.wire()),
            final(writer).last_write() is Some,
            match final(writer).last_write()->0 {
                AsyncResult::Success(Async::Ready(count)) => if count > 0 {
                    &&& result matches Ok(AsyncWriteResult::Ready)
                    &&& final(writer).taken() == old(writer).taken() + self.wire()
                    &&& final(writer).empty_writes() == old(writer).empty_writes()
                } else {
                    &&& result matches Ok(AsyncWriteResult::Stalled(rest))
                    &&& queued(rest)
                    &&& rest.message() == self
                    &&& final(writer).taken() == old(writer).taken() + rest@
                    &&& final(writer).empty_writes() == old(writer).empty_writes() + 1
                },
                AsyncResult::Success(Async::NotReady) => {
                    &&& result matches Ok(AsyncWriteResult::NotReady(rest))
                    &&& queued(rest)
                    &&& rest.message() == self
                    &&& final(writer).taken() == old(writer).taken() + rest@
                    &&& final(writer).empty_writes() == old(writer).empty_writes() + 1
                },
                AsyncResult::Failure(error) => {
                    &&& result == Err::<AsyncWriteResult, std::io::Error>(error)
                    &&& final(writer).empty_writes() == old(writer).empty_writes() + 1
                },
            },
    {
        let mut encoder = AsyncWriter::new(self);
        encoder.async_write_round(writer);
        proof {
            assert(encoder@.skip(0) =~= encoder@);
            assert(writer.taken().skip(old(writer).taken().len() as int) =~= encoder@);
        }
        encoder.finish()
    }
}

impl Clone for Message {
    fn clone(&self) -> (copy: Message)
        ensures
            copy@ == self@,
            self.wf() ==> copy.wf(),
    {
        let copy = Message {
            message_type: self.message_type,
            length: self.length,
            data: self.data.clone(),
        };
        assert(copy.data@ =~= self.data@);
        copy
    }
}

impl Default for Message {
    /// The empty message of type zero.
    fn default() -> (message: Message)
        ensures
            message.wf(),
            message@.message_type == 0,
            message@.payload.len() == 0,
    {
        Message::new(0, 0, Vec::new())
    }
}

} // verus!
