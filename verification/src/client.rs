//! One connection of a room: a stream, the frame that is coming in from it,
//! and the frames that wait to go out to it, first come first out.

use crate::message::Message;
use crate::reader::{AsyncReadResult, AsyncReader};
use crate::transfer::{moved_bytes, Async, AsyncRead, AsyncResult, AsyncWrite, Recorded};
use crate::wire::frame_complete;
use crate::writer::{
    backlog_of, lemma_backlog_concat, lemma_backlog_front, queued, AsyncWriteResult, AsyncWriter,
};
use std::collections::VecDeque;
use vstd::prelude::*;

verus! {

/// A connection. It owns its stream; nothing else reads from the stream or
/// writes to it.
pub struct ClientStream<S> {
    stream: Recorded<S>,
    async_reader: Option<AsyncReader>,
    message_queue: VecDeque<AsyncWriter>,
    error: Option<std::io::Error>,
    closed: bool,
}

/// What sending makes of a queue: of the writers of `before`, the first
/// `out` have left for good, their frames out or their connection failed.
/// The next, if it is still there, stands at the head of `after`, with the
/// same message and at least as far along; behind it the others wait as they
/// were, in their order.
pub open spec fn queue_after(before: Seq<AsyncWriter>, after: Seq<AsyncWriter>, out: int) -> bool {
    &&& 0 <= out <= before.len()
    &&& after.len() == before.len() - out
    &&& forall|i: int| 1 <= i < after.len() ==> #[trigger] after[i] == before[out + i]
    &&& after.len() > 0 ==> {
        &&& after[0].message() == before[out].message()
        &&& before[out]@.is_prefix_of(after[0]@)
    }
}

/// How sending stands when it stopped on `answer`, the answer that the
/// stream gave last, at which it took no byte: with no room for now, or with
/// nothing taken, a writer waits at the head of the queue and the connection
/// is in order; with an error, the connection has failed with it.
pub open spec fn stopped_on<S>(
    client: ClientStream<S>,
    answer: AsyncResult<Async<usize>, std::io::Error>,
) -> bool {
    match answer {
        AsyncResult::Success(Async::NotReady) => client.queue().len() > 0 && !client.has_failed(),
        AsyncResult::Success(Async::Ready(count)) => {
            &&& count == 0
            &&& client.queue().len() > 0
            &&& !client.has_failed()
        },
        AsyncResult::Failure(error) => client.failure() == Some(error),
    }
}

/// What one reading makes of a connection: `before` becomes `after`, and
/// `message` comes out. Nothing is sent and nothing that waits to be sent is
/// touched. A connection that has failed, or whose peer has closed its side,
/// is not read from: it stays as it is and gives nothing. Of another, a
/// message comes out exactly when its frame became whole: its wire bytes are
/// what had come in before, then what the stream handed over now, and the next
/// frame starts from nothing. Where no message comes out, the stream gave no
/// byte at exactly one attempt, the last, and its answer decides: none for
/// now, and the frame holds what it held, then what the stream handed over
/// now, and is still not whole; zero bytes, and the peer has closed its side;
/// an error, and the connection has failed with it. In the last two cases
/// what had come in is dropped.
pub open spec fn read_step<S>(
    before: ClientStream<S>,
    after: ClientStream<S>,
    message: Option<Message>,
) -> bool {
    let came = after.received().skip(before.received().len() as int);
    &&& after.wf()
    &&& after.sent() == before.sent()
    &&& after.empty_writes() == before.empty_writes()
    &&& after.last_write() == before.last_write()
    &&& after.queue() == before.queue()
    &&& before.received().is_prefix_of(after.received())
    &&& if before.has_failed() || before.is_closed() {
        &&& message is None
        &&& after.received() == before.received()
        &&& after.empty_reads() == before.empty_reads()
        &&& after.last_read() == before.last_read()
        &&& after.inbound() == before.inbound()
        &&& after.failure() == before.failure()
        &&& after.is_closed() == before.is_closed()
    } else {
        match message {
            Some(message) => {
                &&& message.wf()
                &&& message.wire() == before.inbound() + came
                &&& after.inbound() == Seq::<u8>::empty()
                &&& after.empty_reads() == before.empty_reads()
                &&& after.last_read() is Some
                &&& moved_bytes(after.last_read()->0)
                &&& !after.has_failed()
                &&& !after.is_closed()
            },
            None => {
                &&& after.empty_reads() == before.empty_reads() + 1
                &&& after.last_read() is Some
                &&& match after.last_read()->0 {
                    AsyncResult::Success(Async::NotReady) => {
                        &&& after.inbound() == before.inbound() + came
                        &&& !frame_complete(after.inbound())
                        &&& !after.has_failed()
                        &&& !after.is_closed()
                    },
                    AsyncResult::Success(Async::Ready(count)) => {
                        &&& count == 0
                        &&& after.inbound() == Seq::<u8>::empty()
                        &&& !after.has_failed()
                        &&& after.is_closed()
                    },
                    AsyncResult::Failure(error) => {
                        &&& after.inbound() == Seq::<u8>::empty()
                        &&& after.failure() == Some(error)
                        &&& !after.is_closed()
                    },
                }
            },
        }
    }
}

impl<S> ClientStream<S> {
    /// Every byte that the stream has taken from this connection, in order.
    pub closed spec fn sent(&self) -> Seq<u8> {
        self.stream.taken()
    }

    /// Every byte that the stream has handed over to this connection, in
    /// order.
    pub closed spec fn received(&self) -> Seq<u8> {
        self.stream.handed()
    }

    /// How many attempts to read from the stream have ended without a byte.
    pub closed spec fn empty_reads(&self) -> nat {
        self.stream.empty_reads()
    }

    /// How many attempts to write to the stream have ended without a byte
    /// taken.
    pub closed spec fn empty_writes(&self) -> nat {
        self.stream.empty_writes()
    }

    /// What the stream answered to the last attempt to read, if there was
    /// one.
    pub closed spec fn last_read(&self) -> Option<AsyncResult<Async<usize>, std::io::Error>> {
        self.stream.last_read()
    }

    /// What the stream answered to the last attempt to write, if there was
    /// one.
    pub closed spec fn last_write(&self) -> Option<AsyncResult<Async<usize>, std::io::Error>> {
        self.stream.last_write()
    }

    /// The writers that wait, the next to go out first.
    pub closed spec fn queue(&self) -> Seq<AsyncWriter> {
        self.message_queue@
    }

    /// The bytes that wait to go out, in the order in which they will.
    pub open spec fn backlog(&self) -> Seq<u8> {
        backlog_of(self.queue())
    }

    /// Everything this connection has sent and has yet to send.
    pub open spec fn outbound(&self) -> Seq<u8> {
        self.sent() + self.backlog()
    }

    /// The bytes of the frame that is coming in.
    pub closed spec fn inbound(&self) -> Seq<u8> {
        match self.async_reader {
            Some(reader) => reader@,
            None => Seq::empty(),
        }
    }

    /// The error that was fatal to this connection, if one was.
    pub closed spec fn failure(&self) -> Option<std::io::Error> {
        self.error
    }

    /// The connection has met a fatal error.
    pub open spec fn has_failed(&self) -> bool {
        self.failure() is Some
    }

    /// The peer has closed its side: nothing more will come in.
    pub closed spec fn is_closed(&self) -> bool {
        self.closed
    }

    /// The reader, if there is one, is between two rounds, and so is every
    /// writer in the queue.
    pub closed spec fn wf(&self) -> bool {
        &&& match self.async_reader {
            Some(reader) => reader.wf() && !reader.spec_done(),
            None => true,
        }
        &&& forall|i: int|
            0 <= i < self.message_queue@.len() ==> queued(#[trigger] self.message_queue@[i])
    }

    /// A connection over `stream`, with nothing read and nothing to send.
    pub fn build(stream: S) -> (client: ClientStream<S>)
        ensures
            client.wf(),
            client.sent() == Seq::<u8>::empty(),
            client.received() == Seq::<u8>::empty(),
            client.empty_reads() == 0,
            client.empty_writes() == 0,
            client.last_read() is None,
            client.last_write() is None,
            client.queue() == Seq::<AsyncWriter>::empty(),
            client.inbound() == Seq::<u8>::empty(),
            client.failure() is None,
            !client.is_closed(),
    {
        ClientStream {
            stream: Recorded::new(stream),
            async_reader: None,
            message_queue: VecDeque::new(),
            error: None,
            closed: false,
        }
    }

    /// Whether the connection has met a fatal error.
    pub fn failed(&self) -> (failed: bool)
        ensures
            failed == self.has_failed(),
    {
        self.error.is_some()
    }

    /// Whether the peer has closed its side.
    pub fn peer_closed(&self) -> (closed: bool)
        ensures
            closed == self.is_closed(),
    {
        self.closed
    }

    /// Takes in how a round of reading ended. A message is handed out, and
    /// the next frame starts from nothing. A reader that is not through is
    /// kept for the next round. A peer that closed its side is put on record
    /// and leaves nothing behind. An error is fatal to the connection and is
    /// kept.
    pub fn settle_read(&mut self, round: Result<AsyncReadResult, std::io::Error>) -> (message:
        Option<Message>)
        requires
            old(self).wf(),
            round matches Ok(AsyncReadResult::NotReady(reader)) ==> reader.wf()
                && !reader.spec_done(),
        ensures
            final(self).wf(),
            final(self).sent() == old(self).sent(),
            final(self).received() == old(self).received(),
            final(self).empty_reads() == old(self).empty_reads(),
            final(self).empty_writes() == old(self).empty_writes(),
            final(self).last_read() == old(self).last_read(),
            final(self).last_write() == old(self).last_write(),
            final(self).queue() == old(self).queue(),
            match round {
                Ok(AsyncReadResult::Ready(whole)) => {
                    &&& message == Some(whole)
                    &&& final(self).inbound() == Seq::<u8>::empty()
                    &&& final(self).failure() == old(self).failure()
                    &&& final(self).is_closed() == old(self).is_closed()
                },
                Ok(AsyncReadResult::NotReady(reader)) => {
                    &&& message is None
                    &&& final(self).inbound() == reader@
                    &&& final(self).failure() == old(self).failure()
                    &&& final(self).is_closed() == old(self).is_closed()
                },
                Ok(AsyncReadResult::Closed) => {
                    &&& message is None
                    &&& final(self).inbound() == Seq::<u8>::empty()
                    &&& final(self).failure() == old(self).failure()
                    &&& final(self).is_closed()
                },
                Err(error) => {
                    &&& message is None
                    &&& final(self).inbound() == Seq::<u8>::empty()
                    &&& final(self).failure() == Some(error)
                    &&& final(self).is_closed() == old(self).is_closed()
                },
            },
    {
        match round {
            Ok(AsyncReadResult::Ready(message)) => {
                self.async_reader = None;
                Some(message)
            },
            Ok(AsyncReadResult::NotReady(reader)) => {
                self.async_reader = Some(reader);
                None
            },
            Ok(AsyncReadResult::Closed) => {
                self.async_reader = None;
                self.closed = true;
                None
            },
            Err(error) => {
                self.async_reader = None;
                self.error = Some(error);
                None
            },
        }
    }

    /// Takes in how the round of the writer at the head of the queue ended,
    /// the writer itself being out of the queue. A frame that is out lets
    /// the next writer have its turn. A writer that is not through, because
    /// the stream is full or took nothing, goes back to the head of the
    /// queue, and sending stops for now. An error is fatal to the connection
    /// and is kept; its writer is gone. Tells whether to go on sending.
    pub fn settle_write(&mut self, round: Result<AsyncWriteResult, std::io::Error>) -> (go_on:
        bool)
        requires
            old(self).wf(),
            round matches Ok(AsyncWriteResult::NotReady(writer)) ==> queued(writer),
            round matches Ok(AsyncWriteResult::Stalled(writer)) ==> queued(writer),
        ensures
            final(self).wf(),
            final(self).sent() == old(self).sent(),
            final(self).received() == old(self).received(),
            final(self).empty_reads() == old(self).empty_reads(),
            final(self).empty_writes() == old(self).empty_writes(),
            final(self).last_read() == old(self).last_read(),
            final(self).last_write() == old(self).last_write(),
            final(self).inbound() == old(self).inbound(),
            final(self).is_closed() == old(self).is_closed(),
            match round {
                Ok(AsyncWriteResult::Ready) => {
                    &&& go_on
                    &&& final(self).queue() == old(self).queue()
                    &&& final(self).failure() == old(self).failure()
                },
                Ok(AsyncWriteResult::NotReady(writer)) => {
                    &&& !go_on
                    &&& final(self).queue() == seq![writer] + old(self).queue()
                    &&& final(self).failure() == old(self).failure()
                },
                Ok(AsyncWriteResult::Stalled(writer)) => {
                    &&& !go_on
                    &&& final(self).queue() == seq![writer] + old(self).queue()
                    &&& final(self).failure() == old(self).failure()
                },
                Err(error) => {
                    &&& !go_on
                    &&& final(self).queue() == old(self).queue()
                    &&& final(self).failure() == Some(error)
                },
            },
    {
        match round {
            Ok(AsyncWriteResult::Ready) => true,
            Ok(AsyncWriteResult::NotReady(writer)) => {
                self.message_queue.push_front(writer);
                false
            },
            Ok(AsyncWriteResult::Stalled(writer)) => {
                self.message_queue.push_front(writer);
                false
            },
            Err(error) => {
                self.error = Some(error);
                false
            },
        }
    }
}

impl<S: AsyncRead> ClientStream<S> {
    /// Polls the stream for more of the frame that is coming in, until the
    /// round is over: the frame is whole, the stream has no more for now, the
    /// peer has closed its side, or an error came. Hands out the reader.
    fn read_async_from_stream(&mut self) -> (reader: AsyncReader)
        requires
            old(self).wf(),
        ensures
            reader.wf(),
            reader.spec_done(),
            old(self).inbound().is_prefix_of(reader@),
            final(self).stream.handed() == old(self).stream.handed() + reader@.skip(
                old(self).inbound().len() as int,
            ),
            final(self).stream.taken() == old(self).stream.taken(),
            final(self).stream.empty_writes() == old(self).stream.empty_writes(),
            final(self).stream.empty_reads() == old(self).stream.empty_reads()
                + if reader.is_complete() {
                0nat
            } else {
                1nat
            },
            final(self).stream.last_read() is Some,
            reader.ended_on(final(self).stream.last_read()->0),
            final(self).stream.last_write() == old(self).stream.last_write(),
            final(self).async_reader is None,
            final(self).message_queue == old(self).message_queue,
            final(self).error == old(self).error,
            final(self).closed == old(self).closed,
    {
        let mut reader = match self.async_reader.take() {
            Some(reader) => reader,
            None => AsyncReader::new(),
        };
        reader.async_read_round(&mut self.stream);
        reader
    }

    /// Reads on at the frame that is coming in. Hands out its message if the
    /// frame became whole in this call, and nothing otherwise: when the stream
    /// has no more for now, when the peer has closed its side (what had come
    /// of the frame is then dropped), and when an error came, which is fatal
    /// to the connection. A connection that has failed, or whose peer has
    /// closed its side, is not read from.
    pub fn read_message(&mut self) -> (message: Option<Message>)
        requires
            old(self).wf(),
        ensures
            read_step(*old(self), *final(self), message),
    {
        proof {
            assert(self.received().skip(self.received().len() as int) =~= Seq::<u8>::empty());
        }
        if self.error.is_some() || self.closed {
            return None;
        }
        let reader = self.read_async_from_stream();
        let ghost came = self.received().skip(old(self).received().len() as int);
        proof {
            assert(came =~= reader@.skip(old(self).inbound().len() as int));
            assert(reader@ =~= old(self).inbound() + came);
        }
        let round = reader.finish();
        self.settle_read(round)
    }
}

impl<S: AsyncWrite> ClientStream<S> {
    /// Puts `messages` at the tail of the queue, in their order.
    fn queue_messages(&mut self, messages: Vec<AsyncWriter>)
        requires
            old(self).wf(),
            forall|i: int| 0 <= i < messages@.len() ==> queued(#[trigger] messages@[i]),
        ensures
            final(self).wf(),
            final(self).message_queue@ == old(self).message_queue@ + messages@,
            final(self).async_reader == old(self).async_reader,
            final(self).error == old(self).error,
            final(self).closed == old(self).closed,
            final(self).stream == old(self).stream,
    {
        let mut messages = messages;
        let mut tail: VecDeque<AsyncWriter> = VecDeque::new();
        let ghost all = messages@;
        while messages.len() > 0
            invariant
                messages@ + tail@ == all,
            decreases messages@.len(),
        {
            let last = messages.pop();
            match last {
                Some(writer) => {
                    tail.push_front(writer);
                    assert(messages@ + tail@ =~= all);
                },
                None => {},
            }
        }
        assert(tail@ =~= all);
        self.message_queue.append(&mut tail);
    }

    /// Polls the stream with `writer` until the round is over: the frame is
    /// out, the stream has no room for now or took nothing, or an error came.
    fn write_async_to_stream(&mut self, writer: &mut AsyncWriter)
        requires
            old(self).wf(),
            queued(*old(writer)),
        ensures
            final(self).wf(),
            final(writer).wf(),
            final(writer).spec_done(),
            final(writer).message() == old(writer).message(),
            final(self).sent() + final(writer).pending() == old(self).sent() + old(
                writer,
            ).pending(),
            old(self).sent().is_prefix_of(final(self).sent()),
            final(self).received() == old(self).received(),
            final(self).empty_reads() == old(self).empty_reads(),
            old(writer)@.is_prefix_of(final(writer)@),
            final(self).empty_writes() == old(self).empty_writes() + if final(writer).is_complete() {
                0nat
            } else {
                1nat
            },
            final(self).last_write() is Some,
            final(writer).ended_on(final(self).last_write()->0),
            final(self).last_read() == old(self).last_read(),
            final(self).message_queue == old(self).message_queue,
            final(self).async_reader == old(self).async_reader,
            final(self).error == old(self).error,
            final(self).closed == old(self).closed,
    {
        let ghost before = *writer;
        let ghost sent_before = self.sent();
        writer.async_write_round(&mut self.stream);
        proof {
            let gone = writer@.skip(before@.len() as int);
            assert(before.pending() =~= gone + writer.pending());
            assert(sent_before + gone + writer.pending() =~= sent_before + (gone
                + writer.pending()));
        }
    }

    /// Puts `messages` at the tail of the queue, then sends from its head:
    /// each writer in turn is polled until its frame is out. The first writer
    /// that the stream does not take whole goes back to the head of the queue
    /// and ends the call; the rest wait behind it. An error from the stream
    /// is fatal to the connection. So the queue is empty afterwards, and the
    /// connection in order, unless the stream took no byte at an attempt;
    /// there is at most one such attempt, the last, and its answer tells how
    /// sending stopped. A connection that has failed takes no messages and
    /// sends nothing.
    pub fn write_messages_to_stream(&mut self, messages: Vec<AsyncWriter>)
        requires
            old(self).wf(),
            forall|i: int| 0 <= i < messages@.len() ==> queued(#[trigger] messages@[i]),
        ensures
            final(self).wf(),
            final(self).inbound() == old(self).inbound(),
            final(self).received() == old(self).received(),
            final(self).empty_reads() == old(self).empty_reads(),
            final(self).last_read() == old(self).last_read(),
            final(self).is_closed() == old(self).is_closed(),
            old(self).has_failed() ==> {
                &&& final(self).sent() == old(self).sent()
                &&& final(self).empty_writes() == old(self).empty_writes()
                &&& final(self).last_write() == old(self).last_write()
                &&& final(self).queue() == old(self).queue()
                &&& final(self).failure() == old(self).failure()
            },
            !old(self).has_failed() ==> {
                &&& exists|out: int| #[trigger]
                    queue_after(old(self).queue() + messages@, final(self).queue(), out)
                &&& if final(self).queue().len() == 0 && !final(self).has_failed() {
                    final(self).empty_writes() == old(self).empty_writes()
                } else {
                    &&& final(self).empty_writes() == old(self).empty_writes() + 1
                    &&& final(self).last_write() is Some
                    &&& stopped_on(*final(self), final(self).last_write()->0)
                }
            },
            old(self).sent().is_prefix_of(final(self).sent()),
            final(self).sent().is_prefix_of(old(self).outbound() + backlog_of(messages@)),
            !final(self).has_failed() ==> final(self).outbound() == old(self).outbound()
                + backlog_of(messages@),
    {
        let ghost target = old(self).outbound() + backlog_of(messages@);
        if self.error.is_some() {
            proof {
                assert(old(self).sent().is_prefix_of(target));
            }
            return ;
        }
        self.queue_messages(messages);
        proof {
            lemma_backlog_concat(old(self).message_queue@, messages@);
            assert(self.sent() + backlog_of(self.message_queue@) =~= target);
        }
        let mut go_on = true;
        let ghost total = self.message_queue@;
        let ghost mut out: int = 0;
        proof {
            assert(total.skip(0) =~= total);
        }
        while go_on
            invariant
                self.wf(),
                self.inbound() == old(self).inbound(),
                self.is_closed() == old(self).is_closed(),
                self.received() == old(self).received(),
                self.empty_reads() == old(self).empty_reads(),
                total == old(self).message_queue@ + messages@,
                0 <= out <= total.len(),
                go_on ==> self.message_queue@ == total.skip(out),
                !go_on ==> queue_after(total, self.message_queue@, out),
                go_on ==> self.empty_writes() == old(self).empty_writes(),
                !go_on ==> if self.message_queue@.len() == 0 && self.error is None {
                    self.empty_writes() == old(self).empty_writes()
                } else {
                    &&& self.empty_writes() == old(self).empty_writes() + 1
                    &&& self.last_write() is Some
                    &&& stopped_on(*self, self.last_write()->0)
                },
                self.last_read() == old(self).last_read(),
                old(self).sent().is_prefix_of(self.sent()),
                self.sent().is_prefix_of(target),
                go_on ==> self.error is None,
                self.error is None ==> self.sent() + backlog_of(self.message_queue@) == target,
            decreases self.message_queue@.len(), if go_on { 1int } else { 0int },
        {
            let ghost queue_before = self.message_queue@;
            let ghost sent_before = self.sent();
            match self.message_queue.pop_front() {
                None => {
                    go_on = false;
                },
                Some(writer) => {
                    let mut writer = writer;
                    let ghost rest = self.message_queue@;
                    let ghost first = writer;
                    proof {
                        assert(first == total[out]);
                        assert(rest =~= total.skip(out + 1));
                        assert(queue_before =~= seq![first] + rest);
                        lemma_backlog_front(first, rest);
                        assert(sent_before + (first.pending() + backlog_of(rest)) =~= (sent_before
                            + first.pending()) + backlog_of(rest));
                    }
                    self.write_async_to_stream(&mut writer);
                    proof {
                        assert((self.sent() + writer.pending()) + backlog_of(rest) =~= self.sent()
                            + (writer.pending() + backlog_of(rest)));
                        if writer.is_complete() {
                            assert(writer.pending() =~= Seq::<u8>::empty());
                            assert(self.sent() + backlog_of(rest) =~= target);
                        } else {
                            lemma_backlog_front(writer, rest);
                        }
                    }
                    let round = writer.finish();
                    let ghost ended = round;
                    proof {
                        match ended {
                            Ok(AsyncWriteResult::NotReady(rest_writer)) => {
                                lemma_backlog_front(rest_writer, rest);
                                assert(rest_writer.pending() == writer.pending());
                            },
                            Ok(AsyncWriteResult::Stalled(rest_writer)) => {
                                lemma_backlog_front(rest_writer, rest);
                                assert(rest_writer.pending() == writer.pending());
                            },
                            _ => {},
                        }
                    }
                    go_on = self.settle_write(round);
                    proof {
                        match ended {
                            Ok(AsyncWriteResult::NotReady(rest_writer)) => {
                                assert(self.message_queue@ =~= seq![rest_writer] + rest);
                                assert(queue_after(total, self.message_queue@, out));
                            },
                            Ok(AsyncWriteResult::Stalled(rest_writer)) => {
                                assert(self.message_queue@ =~= seq![rest_writer] + rest);
                                assert(queue_after(total, self.message_queue@, out));
                            },
                            Ok(AsyncWriteResult::Ready) => {
                                out = out + 1;
                            },
                            Err(_) => {
                                out = out + 1;
                                assert(queue_after(total, self.message_queue@, out));
                            },
                        }
                    }
                },
            }
        }
        proof {
            assert(queue_after(old(self).queue() + messages@, self.queue(), out));
        }
    }
}

} // verus!
