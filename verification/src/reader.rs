//! Decoding one frame from a source that hands over its bytes in pieces.

use crate::message::Message;
use crate::transfer::{moved_bytes, Async, AsyncRead, AsyncResult, Recorded};
use crate::wire::{
    frame, frame_complete, frame_need, frame_prefix, from_be32, lemma_frame_cut,
    lemma_frame_round_trip,
};
use byteorder::{ByteOrder, NetworkEndian};
use vstd::prelude::*;

verus! {

/// The decoder of one frame. It keeps the bytes that have come in so far and
/// takes up again, at the byte where it stopped, whenever the source has more.
pub struct AsyncReader {
    message_type: [u8; 2],
    length: [u8; 4],
    data: Vec<u8>,
    bytes_read: u64,
    done: bool,
    ready: bool,
    closed: bool,
    error: Option<std::io::Error>,
}

/// How a round of reading ended.
pub enum AsyncReadResult {
    /// The frame is complete: here is its message.
    Ready(Message),
    /// The source has no more for now: the reader, to go on with later.
    NotReady(AsyncReader),
    /// The peer closed its side before the frame was complete. No message.
    Closed,
}

impl View for AsyncReader {
    type V = Seq<u8>;

    /// The bytes of the frame that have come in so far, in wire order.
    closed spec fn view(&self) -> Seq<u8> {
        self.stored().take(self.bytes_read as int)
    }
}

impl AsyncReader {
    /// How a round ends on `answer`, the answer that the source gave last:
    /// with bytes, only when the frame is whole; with none for now, as out
    /// of input; with zero bytes, as closed by the peer; with an error, as
    /// failed with that error.
    pub open spec fn ended_on(&self, answer: AsyncResult<Async<usize>, std::io::Error>) -> bool {
        &&& self.spec_done()
        &&& match answer {
            AsyncResult::Success(Async::Ready(count)) => if count > 0 {
                self.is_complete()
            } else {
                self.is_closed()
            },
            AsyncResult::Success(Async::NotReady) => {
                &&& !self.is_complete()
                &&& !self.is_closed()
                &&& self.failure() is None
            },
            AsyncResult::Failure(error) => self.failure() == Some(error),
        }
    }

    /// The three buffers, one after the other.
    closed spec fn stored(&self) -> Seq<u8> {
        self.message_type@ + self.length@ + self.data@
    }

    /// The `count` bytes that lie in the buffer of the field under way, right
    /// after those that have come in: what a source has last put there.
    pub closed spec fn peek(&self, count: int) -> Seq<u8> {
        self.stored().subrange(self.bytes_read as int, self.bytes_read + count)
    }

    /// The round of reading is over; `finish` tells how.
    pub closed spec fn spec_done(&self) -> bool {
        self.done
    }

    /// The peer closed its side before the frame was complete.
    pub closed spec fn is_closed(&self) -> bool {
        self.closed
    }

    /// The error that ended the reading, if one did.
    pub closed spec fn failure(&self) -> Option<std::io::Error> {
        self.error
    }

    /// All bytes of the frame have come in.
    pub open spec fn is_complete(&self) -> bool {
        frame_complete(self@)
    }

    /// How the fields hang together: the payload buffer exists from the moment
    /// the length is known and has that length, and the cursor is inside the
    /// frame.
    pub closed spec fn inv(&self) -> bool {
        &&& self.bytes_read < 6 ==> self.data@.len() == 0
        &&& self.bytes_read >= 6 ==> self.data@.len() == from_be32(self.length@)
            && self.bytes_read <= 6 + self.data@.len()
        &&& self.ready == (self.bytes_read >= 6 && self.bytes_read == 6 + self.data@.len())
    }

    /// The reader is in one of its states: under way, out of input for now,
    /// complete, closed by the peer, or failed.
    pub open spec fn wf(&self) -> bool {
        &&& self.inv()
        &&& frame_prefix(self@)
        &&& self.is_complete() ==> self.spec_done() && !self.is_closed() && self.failure() is None
        &&& self.is_closed() ==> self.spec_done() && self.failure() is None
        &&& self.failure() is Some ==> self.spec_done()
    }

    /// What the representation says of the bytes that have come in.
    proof fn lemma_view(&self)
        requires
            self.inv(),
        ensures
            self@.len() == self.bytes_read,
            frame_prefix(self@),
            self.ready == frame_complete(self@),
            !frame_complete(self@) ==> frame_need(self@) >= 1,
            self.bytes_read < 2 ==> frame_need(self@) == 2 - self.bytes_read,
            2 <= self.bytes_read < 6 ==> frame_need(self@) == 6 - self.bytes_read,
            self.bytes_read >= 6 ==> frame_need(self@) == 6 + self.data@.len() - self.bytes_read,
    {
        if self.bytes_read >= 6 {
            assert(self@.subrange(2, 6) =~= self.length@);
        }
    }

    /// A reader in the middle of the frame of a message: it is complete when
    /// it holds the whole frame and not before, and until then it asks for at
    /// least one byte and for none beyond the end of this frame.
    pub proof fn lemma_reading_a_frame(&self, message_type: u16, payload: Seq<u8>)
        requires
            self.wf(),
            payload.len() <= u32::MAX,
            self@.is_prefix_of(frame(message_type, payload)),
        ensures
            self.is_complete() <==> self@ == frame(message_type, payload),
            !self.is_complete() ==> 1 <= frame_need(self@) <= frame(message_type, payload).len()
                - self@.len(),
    {
        let whole = frame(message_type, payload);
        lemma_frame_round_trip(message_type, payload);
        lemma_frame_cut(message_type, payload, self@.len() as int);
        assert(whole.take(self@.len() as int) =~= self@);
        if self@.len() == whole.len() {
            assert(self@ =~= whole);
        }
    }

    /// Half-close: a reader whose peer closed its side holds no whole frame,
    /// so what `finish` hands out for it is never a message.
    pub proof fn lemma_half_close(&self)
        requires
            self.wf(),
            self.is_closed(),
        ensures
            !self.is_complete(),
            self.spec_done(),
            self.failure() is None,
    {
    }

    /// A reader that has seen nothing yet.
    pub fn new() -> (reader: AsyncReader)
        ensures
            reader.wf(),
            reader@ == Seq::<u8>::empty(),
            !reader.spec_done(),
            !reader.is_closed(),
            reader.failure() is None,
    {
        let reader = AsyncReader {
            message_type: [0;2],
            length: [0;4],
            data: Vec::new(),
            bytes_read: 0,
            done: false,
            ready: false,
            closed: false,
            error: None,
        };
        proof {
            reader.lemma_view();
            assert(reader@ =~= Seq::<u8>::empty());
        }
        reader
    }

    /// Takes in what one attempt to read came to. The source was offered
    /// room for `offered` bytes, which is what the field under way still
    /// takes, and the bytes themselves lie already in the buffer of that field. An attempt that could not
    /// be made ends the round; so does a hard error, for good; zero bytes
    /// mean that the peer has closed its side; a count moves the cursor on,
    /// sizes the payload buffer when the header is thereby whole, and ends
    /// the round when the frame is.
    pub fn advance(&mut self, outcome: AsyncResult<Async<usize>, std::io::Error>, offered: usize)
        requires
            old(self).wf(),
            old(self).failure() is None,
            !old(self).is_complete(),
            !old(self).is_closed(),
            offered == frame_need(old(self)@),
            outcome matches AsyncResult::Success(Async::Ready(count)) ==> count <= offered,
        ensures
            final(self).wf(),
            match outcome {
                AsyncResult::Success(Async::NotReady) => {
                    &&& final(self)@ == old(self)@
                    &&& final(self).spec_done()
                    &&& !final(self).is_closed()
                    &&& final(self).failure() is None
                },
                AsyncResult::Success(Async::Ready(count)) => if count == 0 {
                    &&& final(self)@ == old(self)@
                    &&& final(self).spec_done()
                    &&& final(self).is_closed()
                    &&& final(self).failure() is None
                } else {
                    &&& final(self)@ == old(self)@ + old(self).peek(count as int)
                    &&& final(self)@.len() == old(self)@.len() + count
                    &&& final(self).spec_done() == (old(self).spec_done()
                        || final(self).is_complete())
                    &&& !final(self).is_closed()
                    &&& final(self).failure() is None
                },
                AsyncResult::Failure(error) => {
                    &&& final(self)@ == old(self)@
                    &&& final(self).spec_done()
                    &&& !final(self).is_closed()
                    &&& final(self).failure() == Some(error)
                },
            },
    {
        proof {
            self.lemma_view();
        }
        match outcome {
            AsyncResult::Success(Async::NotReady) => {
                self.done = true;
            },
            AsyncResult::Success(Async::Ready(count)) => {
                if count == 0 {
                    self.closed = true;
                    self.done = true;
                } else {
                    let ghost before = *self;
                    self.bytes_read = self.bytes_read + count as u64;
                    if self.bytes_read == 6 {
                        let length = NetworkEndian::read_u32(&self.length);
                        self.data = vec![0u8; length as usize];
                    }
                    if self.bytes_read >= 6 && self.bytes_read - 6 == self.data.len() as u64 {
                        self.ready = true;
                        self.done = true;
                    }
                    proof {
                        assert(self@ =~= before@ + before.peek(count as int));
                        self.lemma_view();
                    }
                }
            },
            AsyncResult::Failure(error) => {
                self.error = Some(error);
                self.done = true;
            },
        }
    }

    /// The room that the field under way still has: the part of its buffer
    /// behind what has come in. What a source puts there lies behind the
    /// cursor; it has not come in until `advance` counts it.
    pub fn get_storage(&mut self) -> (storage: &mut [u8])
        requires
            old(self).wf(),
            old(self).failure() is None,
            !old(self).is_complete(),
            !old(self).is_closed(),
        ensures
            storage@.len() == frame_need(old(self)@),
            final(storage)@.len() == storage@.len() ==> {
                &&& final(self).wf()
                &&& final(self)@ == old(self)@
                &&& final(self).spec_done() == old(self).spec_done()
                &&& final(self).failure() is None
                &&& !final(self).is_closed()
                &&& forall|count: int|
                    0 <= count <= storage@.len() ==> #[trigger] final(self).peek(count)
                        == final(storage)@.take(count)
            },
    {
        proof {
            self.lemma_view();
        }
        let at = self.bytes_read;
        if at < 2 {
            let whole: &mut [u8] = &mut self.message_type;
            let (head, tail) = whole.split_at_mut(at as usize);
            tail
        } else if at < 6 {
            let whole: &mut [u8] = &mut self.length;
            let (head, tail) = whole.split_at_mut((at - 2) as usize);
            tail
        } else {
            let (head, tail) = self.data.as_mut_slice().split_at_mut((at - 6) as usize);
            tail
        }
    }

    /// One attempt to read more of the frame from `reader`, into the field
    /// under way and no further: the source is offered exactly the room that
    /// this field still has. What it hands over is what comes in. A reader
    /// that is complete, or whose peer has closed, is left as it is, and the
    /// source is not asked.
    pub fn async_read<R: AsyncRead>(&mut self, reader: &mut Recorded<R>)
        requires
            old(self).wf(),
            old(self).failure() is None,
        ensures
            final(self).wf(),
            old(self)@.is_prefix_of(final(self)@),
            final(self)@.len() - old(self)@.len() <= frame_need(old(self)@),
            final(reader).handed() == old(reader).handed() + final(self)@.skip(
                old(self)@.len() as int,
            ),
            final(reader).taken() == old(reader).taken(),
            final(reader).writes() == old(reader).writes(),
            final(reader).empty_writes() == old(reader).empty_writes(),
            final(reader).last_offer() == old(reader).last_offer(),
            final(reader).last_write() == old(reader).last_write(),
            if old(self).is_complete() || old(self).is_closed() {
                &&& *final(self) == *old(self)
                &&& final(reader).reads() == old(reader).reads()
                &&& final(reader).empty_reads() == old(reader).empty_reads()
                &&& final(reader).last_read() == old(reader).last_read()
            } else {
                &&& final(reader).reads() == old(reader).reads() + 1
                &&& final(reader).last_room() == frame_need(old(self)@)
                &&& final(reader).last_read() is Some
                &&& if moved_bytes(final(reader).last_read()->0) {
                    &&& final(self)@.len() == old(self)@.len() + final(reader).last_read()->0->Success_0->Ready_0
                    &&& final(reader).empty_reads() == old(reader).empty_reads()
                    &&& final(self).spec_done() == (old(self).spec_done()
                        || final(self).is_complete())
                    &&& !final(self).is_closed()
                    &&& final(self).failure() is None
                } else {
                    &&& final(self)@ == old(self)@
                    &&& final(reader).empty_reads() == old(reader).empty_reads() + 1
                    &&& final(self).ended_on(final(reader).last_read()->0)
                }
            },
    {
        proof {
            self.lemma_view();
            assert(self@.skip(self@.len() as int) =~= Seq::<u8>::empty());
            assert(reader.handed() + Seq::<u8>::empty() =~= reader.handed());
        }
        if self.ready || self.closed {
            return ;
        }
        let ghost before = *self;
        let ghost handed_before = reader.handed();
        let storage = self.get_storage();
        let offered = storage.len();
        let outcome = reader.read(storage);
        let ghost answer = outcome;
        let ghost middle = *self;
        proof {
            match answer {
                AsyncResult::Success(Async::Ready(count)) => {
                    assert(reader.handed() =~= handed_before + middle.peek(count as int));
                },
                _ => {},
            }
        }
        self.advance(outcome, offered);
        proof {
            match answer {
                AsyncResult::Success(Async::Ready(count)) => {
                    if count > 0 {
                        assert(self@.skip(before@.len() as int) =~= middle.peek(count as int));
                    } else {
                        assert(middle.peek(0) =~= Seq::<u8>::empty());
                    }
                },
                _ => {},
            }
        }
    }

    /// A round of reading: polls `reader` until the frame is whole, or until
    /// an attempt gives no byte: the source has no more for now, the peer has
    /// closed its side, or an error came. That attempt is the last.
    pub fn async_read_round<R: AsyncRead>(&mut self, reader: &mut Recorded<R>)
        requires
            old(self).wf(),
            !old(self).spec_done(),
        ensures
            final(self).wf(),
            final(self).spec_done(),
            old(self)@.is_prefix_of(final(self)@),
            final(reader).handed() == old(reader).handed() + final(self)@.skip(
                old(self)@.len() as int,
            ),
            final(reader).taken() == old(reader).taken(),
            final(reader).writes() == old(reader).writes(),
            final(reader).empty_writes() == old(reader).empty_writes(),
            final(reader).last_offer() == old(reader).last_offer(),
            final(reader).last_write() == old(reader).last_write(),
            final(reader).reads() > old(reader).reads(),
            final(reader).empty_reads() == old(reader).empty_reads() + if final(self).is_complete() {
                0nat
            } else {
                1nat
            },
            final(reader).last_read() is Some,
            final(self).ended_on(final(reader).last_read()->0),
    {
        proof {
            assert(self@.skip(self@.len() as int) =~= Seq::<u8>::empty());
            assert(reader.handed() + Seq::<u8>::empty() =~= reader.handed());
        }
        let ghost mut polled = false;
        while !self.done
            invariant
                self.wf(),
                old(self)@.is_prefix_of(self@),
                reader.handed() == old(reader).handed() + self@.skip(old(self)@.len() as int),
                reader.taken() == old(reader).taken(),
                reader.writes() == old(reader).writes(),
                reader.empty_writes() == old(reader).empty_writes(),
                reader.last_offer() == old(reader).last_offer(),
                reader.last_write() == old(reader).last_write(),
                reader.reads() >= old(reader).reads(),
                polled ==> reader.reads() > old(reader).reads(),
                self.spec_done() ==> polled,
                reader.empty_reads() == old(reader).empty_reads() + if self.spec_done()
                    && !self.is_complete() {
                    1nat
                } else {
                    0nat
                },
                self.spec_done() ==> reader.last_read() is Some && self.ended_on(
                    reader.last_read()->0,
                ),
            decreases
                    (if self@.len() < 6 {
                        6 - self@.len()
                    } else {
                        0
                    }),
                    (if self@.len() < 6 {
                        0
                    } else {
                        frame_need(self@)
                    }),
                    (if self.spec_done() {
                        0int
                    } else {
                        1int
                    }),
        {
            let ghost before = self@;
            self.async_read(reader);
            proof {
                polled = true;
                if before.len() >= 6 {
                    assert(self@.subrange(2, 6) =~= before.subrange(2, 6));
                }
                assert(self@.skip(old(self)@.len() as int) =~= before.skip(
                    old(self)@.len() as int,
                ) + self@.skip(before.len() as int));
                assert(reader.handed() =~= old(reader).handed() + self@.skip(
                    old(self)@.len() as int,
                ));
            }
        }
    }

    /// Ends the round of reading and tells how it ended: with the error, with
    /// the message, with the news that the peer closed its side, or with the
    /// reader itself, ready for the next round.
    pub fn finish(self) -> (result: Result<AsyncReadResult, std::io::Error>)
        requires
            self.wf(),
            self.spec_done(),
        ensures
            match result {
                Err(error) => self.failure() == Some(error),
                Ok(AsyncReadResult::Ready(message)) => {
                    &&& self.failure() is None
                    &&& self.is_complete()
                    &&& message.wf()
                    &&& message.wire() == self@
                },
                Ok(AsyncReadResult::Closed) => self.failure() is None && self.is_closed(),
                Ok(AsyncReadResult::NotReady(reader)) => {
                    &&& self.failure() is None
                    &&& !self.is_complete()
                    &&& !self.is_closed()
                    &&& reader.wf()
                    &&& reader@ == self@
                    &&& !reader.spec_done()
                    &&& !reader.is_closed()
                    &&& reader.failure() is None
                },
            },
    {
        proof {
            self.lemma_view();
        }
        match self.error {
            Some(error) => Err(error),
            None => {
                if self.ready {
                    let ghost taken = self@;
                    let message = Message::from_parts(self.message_type, self.length, self.data);
                    assert(message.wire() =~= taken);
                    Ok(AsyncReadResult::Ready(message))
                } else if self.closed {
                    Ok(AsyncReadResult::Closed)
                } else {
                    let reader = AsyncReader {
                        message_type: self.message_type,
                        length: self.length,
                        data: self.data,
                        bytes_read: self.bytes_read,
                        done: false,
                        ready: false,
                        closed: false,
                        error: None,
                    };
                    proof {
                        assert(reader@ =~= self@);
                        reader.lemma_view();
                    }
                    Ok(AsyncReadResult::NotReady(reader))
                }
            },
        }
    }

    /// Whether the round of reading is over.
    #[verifier::when_used_as_spec(spec_done)]
    pub fn done(&self) -> (done: bool)
        ensures
            done == self.spec_done(),
    {
        self.done
    }
}

} // verus!
