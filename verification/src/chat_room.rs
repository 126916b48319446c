//! A room: the connections that have joined one name, and the messages that
//! have come in from them and are about to go out to all of them.

use crate::client::{read_step, stopped_on, ClientStream};
use crate::message::{frames, Message};
use crate::transfer::{AsyncRead, AsyncWrite};
use crate::writer::{backlog_of, queued, AsyncWriter};
use vstd::prelude::*;

verus! {

/// A room.
pub struct ChatRoom<S> {
    stream_list: Vec<ClientStream<S>>,
    message_queue: Vec<Message>,
}

/// One fresh writer for each of `messages`, in their order.
fn writers_for(messages: &Vec<Message>) -> (writers: Vec<AsyncWriter>)
    requires
        forall|i: int| 0 <= i < messages@.len() ==> (#[trigger] messages@[i]).wf(),
    ensures
        writers@.len() == messages@.len(),
        forall|i: int| 0 <= i < writers@.len() ==> queued(#[trigger] writers@[i]),
        backlog_of(writers@) == frames(messages@),
{
    let mut writers: Vec<AsyncWriter> = Vec::new();
    let mut at: usize = 0;
    while at < messages.len()
        invariant
            at <= messages@.len(),
            writers@.len() == at,
            forall|i: int| 0 <= i < messages@.len() ==> (#[trigger] messages@[i]).wf(),
            forall|i: int| 0 <= i < writers@.len() ==> queued(#[trigger] writers@[i]),
            forall|i: int|
                0 <= i < writers@.len() ==> (#[trigger] writers@[i]).pending() == messages@[i].wire(),
        decreases messages@.len() - at,
    {
        let copy = messages[at].clone();
        let writer = AsyncWriter::new(copy);
        proof {
            assert(writer.pending() =~= writer.wire());
        }
        writers.push(writer);
        at = at + 1;
    }
    proof {
        assert(writers@.map_values(|writer: AsyncWriter| writer.pending()) =~= messages@.map_values(
            |message: Message| message.wire(),
        ));
    }
    writers
}

impl<S> ChatRoom<S> {
    /// The connections of the room, in the order in which they joined.
    pub closed spec fn members(&self) -> Seq<ClientStream<S>> {
        self.stream_list@
    }

    /// The messages that have come in and have not gone out yet, in the order
    /// in which they came.
    pub closed spec fn pending(&self) -> Seq<Message> {
        self.message_queue@
    }

    /// Every connection and every pending message is in order.
    pub open spec fn wf(&self) -> bool {
        &&& forall|i: int| 0 <= i < self.members().len() ==> (#[trigger] self.members()[i]).wf()
        &&& forall|i: int| 0 <= i < self.pending().len() ==> (#[trigger] self.pending()[i]).wf()
    }

    /// An empty room.
    pub fn new() -> (room: ChatRoom<S>)
        ensures
            room.wf(),
            room.members().len() == 0,
            room.pending().len() == 0,
    {
        ChatRoom { stream_list: Vec::new(), message_queue: Vec::new() }
    }

    /// Takes a new connection into the room, behind those that are there.
    pub fn onboard(&mut self, stream: S)
        requires
            old(self).wf(),
        ensures
            final(self).wf(),
            final(self).pending() == old(self).pending(),
            final(self).members().len() == old(self).members().len() + 1,
            final(self).members().drop_last() == old(self).members(),
            fresh(final(self).members().last()),
    {
        let client = ClientStream::build(stream);
        self.stream_list.push(client);
        proof {
            assert(self.stream_list@.drop_last() =~= old(self).stream_list@);
            assert(self.pending() == old(self).pending());
            assert forall|i: int| 0 <= i < self.members().len() implies (
            #[trigger] self.members()[i]).wf() by {
                if i < old(self).members().len() {
                    assert(self.members()[i] == old(self).members()[i]);
                }
            }
        }
    }

    /// How many connections the room has.
    pub fn member_count(&self) -> (count: usize)
        ensures
            count == self.members().len(),
    {
        self.stream_list.len()
    }
}

/// The connection has met no fatal error.
pub open spec fn alive<S>(client: ClientStream<S>) -> bool {
    !client.has_failed()
}

/// A connection that has just joined: nothing has gone through its stream,
/// nothing waits, and nothing is wrong with it.
pub open spec fn fresh<S>(client: ClientStream<S>) -> bool {
    &&& client.sent() == Seq::<u8>::empty()
    &&& client.received() == Seq::<u8>::empty()
    &&& client.empty_reads() == 0
    &&& client.empty_writes() == 0
    &&& client.last_read() is None
    &&& client.last_write() is None
    &&& client.queue() == Seq::<AsyncWriter>::empty()
    &&& client.inbound() == Seq::<u8>::empty()
    &&& !client.has_failed()
    &&& !client.is_closed()
}

/// What the fan-out of `messages` makes of one connection: `before` becomes
/// `after`. Nothing is read. What the stream has taken is a front part of
/// what was to go out before, then the frames of `messages`, in order. As
/// long as the connection has not failed, what it has sent and has yet to
/// send is exactly that; and nothing is left waiting, nor has the connection
/// failed, unless its stream took no byte at an attempt, of which there is
/// at most one, the last, and its answer tells how sending stopped. A
/// connection that had failed sends nothing.
pub open spec fn sent_to<S>(
    before: ClientStream<S>,
    after: ClientStream<S>,
    messages: Seq<Message>,
) -> bool {
    &&& after.wf()
    &&& after.inbound() == before.inbound()
    &&& after.received() == before.received()
    &&& after.empty_reads() == before.empty_reads()
    &&& after.is_closed() == before.is_closed()
    &&& before.sent().is_prefix_of(after.sent())
    &&& after.sent().is_prefix_of(before.outbound() + frames(messages))
    &&& alive(after) ==> after.outbound() == before.outbound() + frames(messages)
    &&& after.last_read() == before.last_read()
    &&& alive(before) ==> if after.queue().len() == 0 && alive(after) {
        after.empty_writes() == before.empty_writes()
    } else {
        &&& after.empty_writes() == before.empty_writes() + 1
        &&& after.last_write() is Some
        &&& stopped_on(after, after.last_write()->0)
    }
    &&& !alive(before) ==> {
        &&& after.sent() == before.sent()
        &&& after.empty_writes() == before.empty_writes()
        &&& after.last_write() == before.last_write()
        &&& !alive(after)
    }
}

/// Fan-out: a connection in order whose stream took a byte at every attempt
/// has, after the fan-out of `messages`, been sent all that waited before and
/// then the frames of `messages`, in their order; nothing is left waiting and
/// the connection is still in order.
pub proof fn lemma_fan_out<S>(
    before: ClientStream<S>,
    after: ClientStream<S>,
    messages: Seq<Message>,
)
    requires
        sent_to(before, after, messages),
        alive(before),
        after.empty_writes() == before.empty_writes(),
    ensures
        alive(after),
        after.queue().len() == 0,
        after.sent() == before.outbound() + frames(messages),
{
    assert(after.queue() =~= Seq::<AsyncWriter>::empty());
    assert(after.backlog() =~= Seq::<u8>::empty());
    assert(after.outbound() =~= after.sent());
}

/// The fan-out of `messages` made `after` of `before`, connection by
/// connection.
pub open spec fn fanned<S>(
    before: Seq<ClientStream<S>>,
    after: Seq<ClientStream<S>>,
    messages: Seq<Message>,
) -> bool {
    &&& after.len() == before.len()
    &&& forall|i: int| 0 <= i < before.len() ==> sent_to(before[i], #[trigger] after[i], messages)
}

/// One round of a room with the members `before` and the messages `pending`:
/// `joined` is `before`, with a fresh connection behind them if one joins;
/// one reading at each made `polled` of them and gave `found`; the fan-out
/// of the pending messages, then the messages found, made `served` of those.
pub open spec fn round_of<S>(
    before: Seq<ClientStream<S>>,
    pending: Seq<Message>,
    joins: bool,
    joined: Seq<ClientStream<S>>,
    polled: Seq<ClientStream<S>>,
    found: Seq<Option<Message>>,
    served: Seq<ClientStream<S>>,
) -> bool {
    &&& if joins {
        &&& joined.len() == before.len() + 1
        &&& joined.drop_last() == before
        &&& fresh(joined.last())
    } else {
        joined == before
    }
    &&& looked(joined, polled, found)
    &&& fanned(polled, served, pending + gathered(found))
}

/// The messages among `found`, in their order.
pub open spec fn gathered(found: Seq<Option<Message>>) -> Seq<Message>
    decreases found.len(),
{
    if found.len() == 0 {
        Seq::empty()
    } else {
        match found.last() {
            Some(message) => gathered(found.drop_last()).push(message),
            None => gathered(found.drop_last()),
        }
    }
}

/// One reading at each connection in turn made `after` of `before`, and
/// `found` is what the readings gave, connection by connection.
pub open spec fn looked<S>(
    before: Seq<ClientStream<S>>,
    after: Seq<ClientStream<S>>,
    found: Seq<Option<Message>>,
) -> bool {
    &&& after.len() == before.len()
    &&& found.len() == before.len()
    &&& forall|i: int| 0 <= i < before.len() ==> read_step(before[i], after[i], #[trigger] found[i])
}

impl<S: AsyncRead + AsyncWrite> ChatRoom<S> {
    /// Reads on at every connection in turn. Each message that became whole
    /// goes to the end of the pending messages. Nothing is sent.
    pub fn look_for_new_message(&mut self)
        requires
            old(self).wf(),
        ensures
            final(self).wf(),
            final(self).members().len() == old(self).members().len(),
            exists|found: Seq<Option<Message>>|
                {
                    &&& #[trigger] looked(old(self).members(), final(self).members(), found)
                    &&& final(self).pending() == old(self).pending() + gathered(found)
                },
    {
        let count = self.stream_list.len();
        let mut at: usize = 0;
        let ghost mut found_all: Seq<Option<Message>> = Seq::empty();
        proof {
            assert(self.message_queue@ =~= old(self).message_queue@ + gathered(found_all));
            assert forall|i: int| 0 <= i < count implies (#[trigger] self.stream_list@[i]).wf() by {
                assert(self.members()[i].wf());
            }
            assert forall|i: int| 0 <= i < self.message_queue@.len() implies (
            #[trigger] self.message_queue@[i]).wf() by {
                assert(self.pending()[i].wf());
            }
        }
        while at < count
            invariant
                at <= count,
                count == self.stream_list@.len(),
                count == old(self).stream_list@.len(),
                forall|i: int| 0 <= i < count ==> (#[trigger] self.stream_list@[i]).wf(),
                forall|i: int|
                    0 <= i < self.message_queue@.len() ==> (#[trigger] self.message_queue@[i]).wf(),
                found_all.len() == at,
                forall|i: int|
                    0 <= i < at ==> read_step(
                        old(self).stream_list@[i],
                        self.stream_list@[i],
                        #[trigger] found_all[i],
                    ),
                forall|i: int|
                    at <= i < count ==> #[trigger] self.stream_list@[i] == old(self).stream_list@[i],
                self.message_queue@ == old(self).message_queue@ + gathered(found_all),
            decreases count - at,
        {
            let ghost list_before = self.stream_list@;
            let ghost queue_before = self.message_queue@;
            let ghost found_before = found_all;
            let found = self.stream_list[at].read_message();
            proof {
                found_all = found_before.push(found);
                assert(found_all.drop_last() =~= found_before);
                assert forall|i: int| 0 <= i < at + 1 implies read_step(
                    old(self).stream_list@[i],
                    self.stream_list@[i],
                    #[trigger] found_all[i],
                ) by {
                    if i < at {
                        assert(self.stream_list@[i] == list_before[i]);
                        assert(found_all[i] == found_before[i]);
                    } else {
                        assert(list_before[i] == old(self).stream_list@[i]);
                    }
                }
                assert forall|i: int| at < i < count implies #[trigger] self.stream_list@[i] == old(
                    self,
                ).stream_list@[i] by {
                    assert(self.stream_list@[i] == list_before[i]);
                }
                assert forall|i: int| 0 <= i < count implies (#[trigger] self.stream_list@[i]).wf() by {
                    if i != at {
                        assert(self.stream_list@[i] == list_before[i]);
                    }
                }
            }
            match found {
                Some(message) => {
                    self.message_queue.push(message);
                    proof {
                        assert(self.message_queue@ =~= old(self).message_queue@ + gathered(
                            found_all,
                        ));
                        assert forall|i: int| 0 <= i < self.message_queue@.len() implies (
                        #[trigger] self.message_queue@[i]).wf() by {
                            if i < queue_before.len() {
                                assert(self.message_queue@[i] == queue_before[i]);
                            }
                        }
                    }
                },
                None => {},
            }
            at = at + 1;
        }
        proof {
            assert(looked(old(self).members(), self.members(), found_all));
        }
    }

    /// Queues a copy of every pending message, in order, at every connection
    /// that has not failed, the one it came from among them, and sends at
    /// each as far as its stream takes it. Then no message is pending.
    pub fn broadcast_pending_messages(&mut self)
        requires
            old(self).wf(),
        ensures
            final(self).wf(),
            final(self).pending().len() == 0,
            final(self).members().len() == old(self).members().len(),
            fanned(old(self).members(), final(self).members(), old(self).pending()),
    {
        let count = self.stream_list.len();
        let mut at: usize = 0;
        proof {
            assert forall|i: int| 0 <= i < count implies (#[trigger] self.stream_list@[i]).wf() by {
                assert(self.members()[i].wf());
            }
            assert forall|i: int| 0 <= i < self.message_queue@.len() implies (
            #[trigger] self.message_queue@[i]).wf() by {
                assert(self.pending()[i].wf());
            }
        }
        while at < count
            invariant
                at <= count,
                count == self.stream_list@.len(),
                count == old(self).stream_list@.len(),
                forall|i: int| 0 <= i < count ==> (#[trigger] self.stream_list@[i]).wf(),
                forall|i: int|
                    0 <= i < self.message_queue@.len() ==> (#[trigger] self.message_queue@[i]).wf(),
                self.message_queue@ == old(self).message_queue@,
                forall|i: int| at <= i < count ==> self.stream_list@[i] == old(self).stream_list@[i],
                forall|i: int|
                    0 <= i < at ==> sent_to(
                        old(self).stream_list@[i],
                        #[trigger] self.stream_list@[i],
                        old(self).message_queue@,
                    ),
            decreases count - at,
        {
            let ghost list_before = self.stream_list@;
            let writers = writers_for(&self.message_queue);
            self.stream_list[at].write_messages_to_stream(writers);
            proof {
                assert forall|i: int| 0 <= i < count implies (#[trigger] self.stream_list@[i]).wf() by {
                    if i != at {
                        assert(self.stream_list@[i] == list_before[i]);
                    }
                }
                assert forall|i: int| at < i < count implies self.stream_list@[i] == old(
                    self,
                ).stream_list@[i] by {
                    assert(self.stream_list@[i] == list_before[i]);
                }
                assert forall|i: int| 0 <= i < at implies self.stream_list@[i] == list_before[i] by {}
                assert(list_before[at as int] == old(self).stream_list@[at as int]);
            }
            at = at + 1;
        }
        proof {
            assert(fanned(old(self).members(), self.members(), old(self).pending()));
        }
        self.message_queue.clear();
    }

    /// Lets go of every connection that has failed; the others stay, in
    /// their order. Tells how many went.
    pub fn remove_failed(&mut self) -> (removed: usize)
        requires
            old(self).wf(),
        ensures
            final(self).wf(),
            final(self).pending() == old(self).pending(),
            final(self).members() == old(self).members().filter(
                |client: ClientStream<S>| alive(client),
            ),
            removed == old(self).members().len() - final(self).members().len(),
    {
        let ghost keep = |client: ClientStream<S>| alive(client);
        let ghost all = self.stream_list@;
        let mut at: usize = 0;
        let mut removed: usize = 0;
        proof {
            assert(all.len() == self.stream_list.len());
            assert(all.take(0) =~= Seq::<ClientStream<S>>::empty());
            reveal(Seq::filter);
            assert(all.take(0).filter(keep) =~= Seq::<ClientStream<S>>::empty());
            assert(all.skip(0) =~= all);
        }
        while at < self.stream_list.len()
            invariant
                at <= self.stream_list@.len(),
                at + removed <= all.len(),
                all.len() <= usize::MAX,
                self.stream_list@ == all.take(at + removed).filter(keep) + all.skip(at + removed),
                at == all.take(at + removed).filter(keep).len(),
                self.message_queue@ == old(self).message_queue@,
                all == old(self).stream_list@,
                old(self).wf(),
                keep == |client: ClientStream<S>| alive(client),
            decreases self.stream_list@.len() - at,
        {
            let ghost seen = at + removed;
            proof {
                assert(self.stream_list@[at as int] == all[seen]);
                assert(all.take(seen + 1) =~= all.take(seen).push(all[seen]));
                all.take(seen).lemma_filter_push(all[seen], keep);
            }
            assert(seen < all.len());
            if self.stream_list[at].failed() {
                self.stream_list.remove(at);
                removed = removed + 1;
                proof {
                    assert(self.stream_list@ =~= all.take(seen + 1).filter(keep) + all.skip(seen + 1));
                }
            } else {
                at = at + 1;
                proof {
                    assert(self.stream_list@ =~= all.take(seen + 1).filter(keep) + all.skip(seen + 1));
                }
            }
        }
        proof {
            let seen = at + removed;
            assert(all.skip(seen).len() == 0);
            assert(seen == all.len());
            assert(all.take(seen) =~= all);
            assert(self.stream_list@ =~= all.filter(keep));
            assert(self.pending() == old(self).pending());
            assert forall|i: int| 0 <= i < self.members().len() implies (
            #[trigger] self.members()[i]).wf() by {
                all.lemma_filter_contains_rev(keep, self.members()[i]);
                assert(all.filter(keep).contains(self.members()[i]));
                assert(all.contains(self.members()[i]));
                let j = choose|j: int| 0 <= j < all.len() && all[j] == self.members()[i];
                assert(old(self).members()[j].wf());
            }
        }
        removed
    }

    /// One round of the room: takes in `newcomer` if there is one, reads on
    /// at every connection, sends what came in to every connection, and lets
    /// go of the connections that failed on the way.
    pub fn tick(&mut self, newcomer: Option<S>)
        requires
            old(self).wf(),
        ensures
            final(self).wf(),
            final(self).pending().len() == 0,
            final(self).members().len() <= old(self).members().len() + if newcomer is Some {
                1int
            } else {
                0int
            },
            forall|i: int|
                0 <= i < final(self).members().len() ==> alive(#[trigger] final(self).members()[i]),
            exists|
                joined: Seq<ClientStream<S>>,
                polled: Seq<ClientStream<S>>,
                found: Seq<Option<Message>>,
                served: Seq<ClientStream<S>>,
            |
                {
                    &&& #[trigger] round_of(
                        old(self).members(),
                        old(self).pending(),
                        newcomer is Some,
                        joined,
                        polled,
                        found,
                        served,
                    )
                    &&& final(self).members() == served.filter(
                        |client: ClientStream<S>| alive(client),
                    )
                },
    {
        let ghost joins = newcomer is Some;
        match newcomer {
            Some(stream) => {
                self.onboard(stream);
            },
            None => {},
        }
        let ghost joined = self.members();
        let ghost pending = self.pending();
        self.look_for_new_message();
        let ghost polled = self.members();
        let ghost found = choose|found: Seq<Option<Message>>|
            {
                &&& #[trigger] looked(joined, polled, found)
                &&& self.pending() == pending + gathered(found)
            };
        self.broadcast_pending_messages();
        let ghost served = self.members();
        self.remove_failed();
        proof {
            let keep = |client: ClientStream<S>| alive(client);
            assert forall|i: int| 0 <= i < self.members().len() implies alive(
                #[trigger] self.members()[i],
            ) by {
                served.lemma_filter_pred(keep, i);
            }
            assert(round_of(
                old(self).members(),
                old(self).pending(),
                joins,
                joined,
                polled,
                found,
                served,
            ));
        }
    }
}

} // verus!
