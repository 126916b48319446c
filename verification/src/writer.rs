//! Encoding one message into a sink that takes its bytes in pieces.

use crate::message::{field_rest, Message};
use crate::transfer::{moved_bytes, Async, AsyncResult, AsyncWrite, Recorded};
use vstd::prelude::*;
use vstd::seq_lib::lemma_flatten_concat;

verus! {

/// The encoder of one message. It owns the message, keeps count of the bytes
/// that the sink has taken, and takes up again at the next byte whenever the
/// sink has room.
pub struct AsyncWriter {
    buffer: Message,
    bytes_written: u64,
    done: bool,
    ready: bool,
    stalled: bool,
    error: Option<std::io::Error>,
}

/// How a round of writing ended.
pub enum AsyncWriteResult {
    /// The whole frame is out.
    Ready,
    /// The sink has no room for now: the writer, to go on with later.
    NotReady(AsyncWriter),
    /// The sink took nothing and named no error: the writer, for the caller
    /// to try again with or to drop.
    Stalled(AsyncWriter),
}

/// The bytes that a queue of writers still has to send, in the order of the
/// queue.
pub open spec fn backlog_of(writers: Seq<AsyncWriter>) -> Seq<u8> {
    writers.map_values(|writer: AsyncWriter| writer.pending()).flatten()
}

/// A writer as it stands in a queue between two rounds: in order, and with
/// bytes still to go out.
pub open spec fn queued(writer: AsyncWriter) -> bool {
    writer.wf() && !writer.spec_done()
}

/// What `backlog_of` is for a queue with `head` in front of `rest`.
pub proof fn lemma_backlog_front(head: AsyncWriter, rest: Seq<AsyncWriter>)
    ensures
        backlog_of(seq![head] + rest) == head.pending() + backlog_of(rest),
{
    let pending = |writer: AsyncWriter| writer.pending();
    let whole = seq![head] + rest;
    assert(whole.map_values(pending).drop_first() =~= rest.map_values(pending));
    assert(whole.map_values(pending).first() == head.pending());
}

/// What `backlog_of` is for two queues, one behind the other.
pub proof fn lemma_backlog_concat(front: Seq<AsyncWriter>, back: Seq<AsyncWriter>)
    ensures
        backlog_of(front + back) == backlog_of(front) + backlog_of(back),
{
    let pending = |writer: AsyncWriter| writer.pending();
    assert((front + back).map_values(pending) =~= front.map_values(pending) + back.map_values(
        pending,
    ));
    lemma_flatten_concat(front.map_values(pending), back.map_values(pending));
}

impl View for AsyncWriter {
    type V = Seq<u8>;

    /// The bytes of the frame that the sink has taken so far.
    closed spec fn view(&self) -> Seq<u8> {
        self.buffer.wire().take(self.bytes_written as int)
    }
}

impl AsyncWriter {
    /// How a round ends on `answer`, the answer that the sink gave last: with
    /// bytes taken, only when the frame is out; with no room for now, as out
    /// of room; with zero bytes taken, as stalled; with an error, as failed
    /// with that error.
    pub open spec fn ended_on(&self, answer: AsyncResult<Async<usize>, std::io::Error>) -> bool {
        &&& self.spec_done()
        &&& match answer {
            AsyncResult::Success(Async::Ready(count)) => if count > 0 {
                self.is_complete()
            } else {
                self.is_stalled()
            },
            AsyncResult::Success(Async::NotReady) => {
                &&& !self.is_complete()
                &&& !self.is_stalled()
                &&& self.failure() is None
            },
            AsyncResult::Failure(error) => self.failure() == Some(error),
        }
    }

    /// The message that is being sent.
    pub closed spec fn message(&self) -> Message {
        self.buffer
    }

    /// The round of writing is over; `finish` tells how.
    pub closed spec fn spec_done(&self) -> bool {
        self.done
    }

    /// The sink took nothing at the last attempt, and named no error.
    pub closed spec fn is_stalled(&self) -> bool {
        self.stalled
    }

    /// The error that ended the writing, if one did.
    pub closed spec fn failure(&self) -> Option<std::io::Error> {
        self.error
    }

    /// The whole frame: the wire bytes of the message.
    pub open spec fn wire(&self) -> Seq<u8> {
        self.message().wire()
    }

    /// The bytes of the frame that are still to go out.
    pub open spec fn pending(&self) -> Seq<u8> {
        self.wire().skip(self@.len() as int)
    }

    /// The whole frame is out.
    pub open spec fn is_complete(&self) -> bool {
        self@.len() == self.wire().len()
    }

    /// How the fields hang together.
    pub closed spec fn inv(&self) -> bool {
        &&& self.bytes_written <= self.buffer.wire().len()
        &&& self.ready == (self.bytes_written == self.buffer.wire().len())
    }

    /// The writer is in one of its states: under way, out of room for now,
    /// stalled, complete, or failed.
    pub open spec fn wf(&self) -> bool {
        &&& self.inv()
        &&& self.message().wf()
        &&& self@.len() <= self.wire().len()
        &&& self@ == self.wire().take(self@.len() as int)
        &&& self.is_complete() ==> self.spec_done() && !self.is_stalled() && self.failure() is None
        &&& self.is_stalled() ==> self.spec_done() && self.failure() is None
        &&& self.failure() is Some ==> self.spec_done()
    }

    /// What the representation says of the bytes that are out.
    proof fn lemma_view(&self)
        requires
            self.inv(),
            self.buffer.wf(),
        ensures
            self@.len() == self.bytes_written,
            self@ == self.wire().take(self@.len() as int),
            self.ready == self.is_complete(),
            self.wire().len() == 6 + self.buffer@.payload.len(),
            self.wire().len() <= 6 + u32::MAX,
            !self.is_complete() ==> field_rest(self.wire(), self.bytes_written as int).len() >= 1,
            field_rest(self.wire(), self.bytes_written as int).len() + self.bytes_written
                <= self.wire().len(),
    {
        self.buffer.lemma_stored();
    }

    /// A writer for `buffer`, of which nothing is out yet.
    pub fn new(buffer: Message) -> (writer: AsyncWriter)
        requires
            buffer.wf(),
        ensures
            writer.wf(),
            writer.message() == buffer,
            writer@ == Seq::<u8>::empty(),
            !writer.spec_done(),
            !writer.is_stalled(),
            writer.failure() is None,
    {
        let writer = AsyncWriter {
            buffer,
            bytes_written: 0,
            done: false,
            ready: false,
            stalled: false,
            error: None,
        };
        proof {
            writer.lemma_view();
            assert(writer@ =~= Seq::<u8>::empty());
        }
        writer
    }

    /// Whether the round of writing is over.
    #[verifier::when_used_as_spec(spec_done)]
    pub fn done(&self) -> (done: bool)
        ensures
            done == self.spec_done(),
    {
        self.done
    }

    /// Takes in what one attempt to write the rest of the field under way
    /// came to. An attempt that could not be made ends the round; so does a
    /// hard error, for good; zero bytes taken end it as stalled; a count
    /// moves the cursor on and ends the round when the frame is out.
    pub fn advance(&mut self, outcome: AsyncResult<Async<usize>, std::io::Error>)
        requires
            old(self).wf(),
            old(self).failure() is None,
            !old(self).is_complete(),
            outcome matches AsyncResult::Success(Async::Ready(count)) ==> count <= field_rest(
                old(self).wire(),
                old(self)@.len() as int,
            ).len(),
        ensures
            final(self).wf(),
            final(self).message() == old(self).message(),
            match outcome {
                AsyncResult::Success(Async::NotReady) => {
                    &&& final(self)@ == old(self)@
                    &&& final(self).spec_done()
                    &&& !final(self).is_stalled()
                    &&& final(self).failure() is None
                },
                AsyncResult::Success(Async::Ready(count)) => if count == 0 {
                    &&& final(self)@ == old(self)@
                    &&& final(self).spec_done()
                    &&& final(self).is_stalled()
                    &&& final(self).failure() is None
                } else {
                    &&& final(self)@ == old(self).wire().take(old(self)@.len() + count)
                    &&& final(self)@.len() == old(self)@.len() + count
                    &&& final(self).spec_done() == (old(self).spec_done()
                        || final(self).is_complete())
                    &&& !final(self).is_stalled()
                    &&& final(self).failure() is None
                },
                AsyncResult::Failure(error) => {
                    &&& final(self)@ == old(self)@
                    &&& final(self).spec_done()
                    &&& !final(self).is_stalled()
                    &&& final(self).failure() == Some(error)
                },
            },
    {
        proof {
            self.lemma_view();
        }
        match outcome {
            AsyncResult::Success(Async::NotReady) => {
                self.stalled = false;
                self.done = true;
            },
            AsyncResult::Success(Async::Ready(count)) => {
                if count == 0 {
                    self.stalled = true;
                    self.done = true;
                } else {
                    self.stalled = false;
                    self.bytes_written = self.bytes_written + count as u64;
                    if self.bytes_written >= 6 && self.bytes_written - 6
                        == self.buffer.data().len() as u64 {
                        self.ready = true;
                        self.done = true;
                    }
                    proof {
                        self.lemma_view();
                    }
                }
            },
            AsyncResult::Failure(error) => {
                self.stalled = false;
                self.error = Some(error);
                self.done = true;
            },
        }
    }

    /// One attempt to write more of the frame to `writer`: the sink is
    /// offered the rest of the field under way and no more, and what it takes
    /// of it is what is out. A writer whose frame is out is left as it is,
    /// and the sink is not asked.
    pub fn async_write<W: AsyncWrite>(&mut self, writer: &mut Recorded<W>)
        requires
            old(self).wf(),
            old(self).failure() is None,
        ensures
            final(self).wf(),
            final(self).message() == old(self).message(),
            old(self)@.is_prefix_of(final(self)@),
            final(writer).taken() == old(writer).taken() + final(self)@.skip(
                old(self)@.len() as int,
            ),
            final(writer).handed() == old(writer).handed(),
            final(writer).reads() == old(writer).reads(),
            final(writer).empty_reads() == old(writer).empty_reads(),
            final(writer).last_room() == old(writer).last_room(),
            final(writer).last_read() == old(writer).last_read(),
            if old(self).is_complete() {
                &&& *final(self) == *old(self)
                &&& final(writer).writes() == old(writer).writes()
                &&& final(writer).empty_writes() == old(writer).empty_writes()
                &&& final(writer).last_write() == old(writer).last_write()
            } else {
                &&& final(writer).writes() == old(writer).writes() + 1
                &&& final(writer).last_offer() == field_rest(
                    old(self).wire(),
                    old(self)@.len() as int,
                )
                &&& final(writer).last_write() is Some
                &&& if moved_bytes(final(writer).last_write()->0) {
                    &&& final(self)@.len() == old(self)@.len() + final(writer).last_write()->0->Success_0->Ready_0
                    &&& final(writer).empty_writes() == old(writer).empty_writes()
                    &&& final(self).spec_done() == (old(self).spec_done()
                        || final(self).is_complete())
                    &&& !final(self).is_stalled()
                    &&& final(self).failure() is None
                } else {
                    &&& final(self)@ == old(self)@
                    &&& final(writer).empty_writes() == old(writer).empty_writes() + 1
                    &&& final(self).ended_on(final(writer).last_write()->0)
                }
            },
    {
        proof {
            self.lemma_view();
            assert(self@.skip(self@.len() as int) =~= Seq::<u8>::empty());
            assert(writer.taken() + Seq::<u8>::empty() =~= writer.taken());
        }
        if self.ready {
            return ;
        }
        let ghost before = self@;
        let chunk = self.buffer.get_data(self.bytes_written);
        let outcome = writer.write(chunk);
        let ghost answer = outcome;
        self.advance(outcome);
        proof {
            match answer {
                AsyncResult::Success(Async::Ready(count)) => {
                    assert(self@.skip(before.len() as int) =~= chunk@.take(count as int));
                },
                _ => {},
            }
        }
    }

    /// A round of writing: polls `writer` until the frame is out, or until
    /// an attempt at which the sink takes no byte: it has no room for now, it
    /// took nothing, or an error came. That attempt is the last.
    pub fn async_write_round<W: AsyncWrite>(&mut self, writer: &mut Recorded<W>)
        requires
            old(self).wf(),
            !old(self).spec_done(),
        ensures
            final(self).wf(),
            final(self).spec_done(),
            final(self).message() == old(self).message(),
            old(self)@.is_prefix_of(final(self)@),
            final(writer).taken() == old(writer).taken() + final(self)@.skip(
                old(self)@.len() as int,
            ),
            final(writer).handed() == old(writer).handed(),
            final(writer).reads() == old(writer).reads(),
            final(writer).empty_reads() == old(writer).empty_reads(),
            final(writer).last_room() == old(writer).last_room(),
            final(writer).last_read() == old(writer).last_read(),
            final(writer).writes() > old(writer).writes(),
            final(writer).empty_writes() == old(writer).empty_writes() + if final(self).is_complete() {
                0nat
            } else {
                1nat
            },
            final(writer).last_write() is Some,
            final(self).ended_on(final(writer).last_write()->0),
    {
        proof {
            assert(self@.skip(self@.len() as int) =~= Seq::<u8>::empty());
            assert(writer.taken() + Seq::<u8>::empty() =~= writer.taken());
        }
        let ghost mut polled = false;
        while !self.done
            invariant
                self.wf(),
                self.message() == old(self).message(),
                old(self)@.is_prefix_of(self@),
                writer.taken() == old(writer).taken() + self@.skip(old(self)@.len() as int),
                writer.handed() == old(writer).handed(),
                writer.reads() == old(writer).reads(),
                writer.empty_reads() == old(writer).empty_reads(),
                writer.last_room() == old(writer).last_room(),
                writer.last_read() == old(writer).last_read(),
                writer.writes() >= old(writer).writes(),
                polled ==> writer.writes() > old(writer).writes(),
                self.spec_done() ==> polled,
                writer.empty_writes() == old(writer).empty_writes() + if self.spec_done()
                    && !self.is_complete() {
                    1nat
                } else {
                    0nat
                },
                self.spec_done() ==> writer.last_write() is Some && self.ended_on(
                    writer.last_write()->0,
                ),
            decreases
                    self.wire().len() - self@.len(),
                    (if self.spec_done() {
                        0int
                    } else {
                        1int
                    }),
        {
            let ghost before = self@;
            self.async_write(writer);
            proof {
                polled = true;
                assert(self@.skip(old(self)@.len() as int) =~= before.skip(
                    old(self)@.len() as int,
                ) + self@.skip(before.len() as int));
                assert(writer.taken() =~= old(writer).taken() + self@.skip(
                    old(self)@.len() as int,
                ));
            }
        }
    }

    /// Ends the round of writing and tells how it ended: with the error, with
    /// the frame out, or with the writer itself, stalled or merely out of
    /// room, ready for the next round.
    pub fn finish(self) -> (result: Result<AsyncWriteResult, std::io::Error>)
        requires
            self.wf(),
            self.spec_done(),
        ensures
            match result {
                Err(error) => self.failure() == Some(error),
                Ok(AsyncWriteResult::Ready) => self.failure() is None && self.is_complete(),
                Ok(AsyncWriteResult::Stalled(writer)) => {
                    &&& self.failure() is None
                    &&& self.is_stalled()
                    &&& writer.wf()
                    &&& writer.message() == self.message()
                    &&& writer@ == self@
                    &&& !writer.spec_done()
                    &&& !writer.is_stalled()
                    &&& writer.failure() is None
                },
                Ok(AsyncWriteResult::NotReady(writer)) => {
                    &&& self.failure() is None
                    &&& !self.is_complete()
                    &&& !self.is_stalled()
                    &&& writer.wf()
                    &&& writer.message() == self.message()
                    &&& writer@ == self@
                    &&& !writer.spec_done()
                    &&& !writer.is_stalled()
                    &&& writer.failure() is None
                },
            },
    {
        proof {
            self.lemma_view();
        }
        match self.error {
            Some(error) => Err(error),
            None => {
                if self.ready {
                    Ok(AsyncWriteResult::Ready)
                } else {
                    let stalled = self.stalled;
                    let writer = AsyncWriter {
                        buffer: self.buffer,
                        bytes_written: self.bytes_written,
                        done: false,
                        ready: false,
                        stalled: false,
                        error: None,
                    };
                    proof {
                        writer.lemma_view();
                    }
                    if stalled {
                        Ok(AsyncWriteResult::Stalled(writer))
                    } else {
                        Ok(AsyncWriteResult::NotReady(writer))
                    }
                }
            },
        }
    }
}

} // verus!
