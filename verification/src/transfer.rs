//! The vocabulary of one non-blocking transfer: what a byte source or sink
//! answers to a single attempt, and the record of what went through a stream.

use vstd::prelude::*;

verus! {

/// `std::io::Error`, carried through as it came.
#[verifier::external_type_specification]
#[verifier::external_body]
pub struct ExIoError(std::io::Error);

/// Whether an attempt could be made now.
pub enum Async<T> {
    /// The attempt was made; here is its result.
    Ready(T),
    /// The attempt would have blocked, or was interrupted: try again later.
    NotReady,
}

/// What an attempt came to: a result, or a hard error.
pub enum AsyncResult<T, E> {
    Success(T),
    Failure(E),
}

/// A byte source that never blocks.
pub trait AsyncRead {
    /// One attempt to read into `buf`. `Ready(n)` says that the first `n`
    /// bytes of `buf` were filled; `Ready(0)` on a buffer that is not empty
    /// says that the peer has closed its side.
    fn partial_read_async(&mut self, buf: &mut [u8]) -> (outcome: AsyncResult<
        Async<usize>,
        std::io::Error,
    >)
        ensures
            final(buf)@.len() == old(buf)@.len(),
            outcome matches AsyncResult::Success(Async::Ready(n)) ==> n <= old(buf)@.len(),
    ;
}

/// A byte sink that never blocks.
pub trait AsyncWrite {
    /// One attempt to write `buf`. `Ready(n)` says that the sink took the
    /// first `n` bytes of `buf` and no others.
    fn partial_write_async(&mut self, buf: &[u8]) -> (outcome: AsyncResult<
        Async<usize>,
        std::io::Error,
    >)
        ensures
            outcome matches AsyncResult::Success(Async::Ready(n)) ==> n <= buf@.len(),
    ;
}

/// The kinds of error that a read or a write of `std::io` may end with, as
/// far as this library tells them apart.
#[derive(Debug, Clone, Copy, PartialEq, Eq, Structural)]
pub enum ErrorClass {
    /// The call would have blocked.
    WouldBlock,
    /// The call was interrupted before it did anything.
    Interrupted,
    /// Any other kind.
    Other,
}

/// `std::io::Error::kind`, sorted into the kinds of `ErrorClass`.
#[verifier::external_body]
fn class_of(error: &std::io::Error) -> (class: ErrorClass) {
    match error.kind() {
        std::io::ErrorKind::WouldBlock => ErrorClass::WouldBlock,
        std::io::ErrorKind::Interrupted => ErrorClass::Interrupted,
        _ => ErrorClass::Other,
    }
}

/// What an attempt that ended with `error`, of kind `class`, came to: after a
/// call that would have blocked or was interrupted the same call may be made
/// again, so the attempt was `NotReady`; any other error is a failure and is
/// handed on.
pub fn after_error(error: std::io::Error, class: ErrorClass) -> (outcome: AsyncResult<
    Async<usize>,
    std::io::Error,
>)
    ensures
        outcome == match class {
            ErrorClass::WouldBlock => AsyncResult::<Async<usize>, std::io::Error>::Success(
                Async::NotReady,
            ),
            ErrorClass::Interrupted => AsyncResult::<Async<usize>, std::io::Error>::Success(
                Async::NotReady,
            ),
            ErrorClass::Other => AsyncResult::<Async<usize>, std::io::Error>::Failure(error),
        },
{
    match class {
        ErrorClass::WouldBlock => AsyncResult::Success(Async::NotReady),
        ErrorClass::Interrupted => AsyncResult::Success(Async::NotReady),
        ErrorClass::Other => AsyncResult::Failure(error),
    }
}

/// Puts the result of one `read` or `write` of `std::io` into the vocabulary
/// of this module: a byte count is `Ready`, an error after which the call may
/// be repeated is `NotReady`, any other error is a failure and is handed on.
pub fn classify(result: Result<usize, std::io::Error>) -> (outcome: AsyncResult<
    Async<usize>,
    std::io::Error,
>)
    ensures
        match result {
            Ok(count) => outcome == AsyncResult::<Async<usize>, std::io::Error>::Success(
                Async::Ready(count),
            ),
            Err(error) => outcome == AsyncResult::<Async<usize>, std::io::Error>::Success(
                Async::NotReady,
            ) || outcome == AsyncResult::<Async<usize>, std::io::Error>::Failure(error),
        },
{
    match result {
        Ok(count) => AsyncResult::Success(Async::Ready(count)),
        Err(error) => {
            let class = class_of(&error);
            after_error(error, class)
        },
    }
}

/// A stream with the record of what went through it: the bytes that it
/// handed over when it was read from, and the bytes that it took when it was
/// written to. The record is kept here, at the one place where the stream is
/// called, from what the stream itself answered.
pub struct Recorded<S> {
    stream: S,
    handed: Ghost<Seq<u8>>,
    taken: Ghost<Seq<u8>>,
    empty_reads: Ghost<nat>,
    empty_writes: Ghost<nat>,
    reads: Ghost<nat>,
    writes: Ghost<nat>,
    last_room: Ghost<nat>,
    last_offer: Ghost<Seq<u8>>,
    last_read: Ghost<Option<AsyncResult<Async<usize>, std::io::Error>>>,
    last_write: Ghost<Option<AsyncResult<Async<usize>, std::io::Error>>>,
}

impl<S> Recorded<S> {
    /// Every byte that the stream has handed over so far, in order.
    pub closed spec fn handed(&self) -> Seq<u8> {
        self.handed@
    }

    /// Every byte that the stream has taken so far, in order.
    pub closed spec fn taken(&self) -> Seq<u8> {
        self.taken@
    }

    /// How many attempts to read have ended without a byte: because the
    /// stream had none for now, because the peer had closed its side, or
    /// with an error.
    pub closed spec fn empty_reads(&self) -> nat {
        self.empty_reads@
    }

    /// How many attempts to write have ended without a byte taken: because
    /// the stream had no room for now, because it took nothing, or with an
    /// error.
    pub closed spec fn empty_writes(&self) -> nat {
        self.empty_writes@
    }

    /// How many attempts to read have been made.
    pub closed spec fn reads(&self) -> nat {
        self.reads@
    }

    /// How many attempts to write have been made.
    pub closed spec fn writes(&self) -> nat {
        self.writes@
    }

    /// How many bytes of room the stream was offered at the last attempt to
    /// read.
    pub closed spec fn last_room(&self) -> nat {
        self.last_room@
    }

    /// The bytes that the stream was offered at the last attempt to write.
    pub closed spec fn last_offer(&self) -> Seq<u8> {
        self.last_offer@
    }

    /// What the stream answered to the last attempt to read, if there was
    /// one.
    pub closed spec fn last_read(&self) -> Option<AsyncResult<Async<usize>, std::io::Error>> {
        self.last_read@
    }

    /// What the stream answered to the last attempt to write, if there was
    /// one.
    pub closed spec fn last_write(&self) -> Option<AsyncResult<Async<usize>, std::io::Error>> {
        self.last_write@
    }

    /// `stream`, with nothing on record yet.
    pub fn new(stream: S) -> (recorded: Recorded<S>)
        ensures
            recorded.handed() == Seq::<u8>::empty(),
            recorded.taken() == Seq::<u8>::empty(),
            recorded.empty_reads() == 0,
            recorded.empty_writes() == 0,
            recorded.reads() == 0,
            recorded.writes() == 0,
            recorded.last_read() is None,
            recorded.last_write() is None,
    {
        Recorded {
            stream,
            handed: Ghost(Seq::empty()),
            taken: Ghost(Seq::empty()),
            empty_reads: Ghost(0),
            empty_writes: Ghost(0),
            reads: Ghost(0),
            writes: Ghost(0),
            last_room: Ghost(0),
            last_offer: Ghost(Seq::empty()),
            last_read: Ghost(None),
            last_write: Ghost(None),
        }
    }

    /// The stream itself, to look at.
    pub fn get_ref(&self) -> &S {
        &self.stream
    }

    /// The stream itself, without its record.
    pub fn into_inner(self) -> S {
        self.stream
    }
}

/// The answer says that bytes went through: a count that is not zero.
pub open spec fn moved_bytes(answer: AsyncResult<Async<usize>, std::io::Error>) -> bool {
    answer matches AsyncResult::Success(Async::Ready(count)) && count > 0
}

impl<S: AsyncRead> Recorded<S> {
    /// One attempt to read into `buf`, which has room, put on record with
    /// its answer: after `Ready(n)` the first `n` bytes of `buf` are what the
    /// stream handed over last. An attempt that gave no byte is counted as
    /// such: the stream had none for now, the peer had closed its side, or
    /// an error came. Without room the answer `Ready(0)` would say nothing of
    /// the peer, so `buf` must have room.
    pub fn read(&mut self, buf: &mut [u8]) -> (outcome: AsyncResult<Async<usize>, std::io::Error>)
        requires
            old(buf)@.len() > 0,
        ensures
            final(buf)@.len() == old(buf)@.len(),
            final(self).reads() == old(self).reads() + 1,
            final(self).last_room() == old(buf)@.len(),
            final(self).last_read() == Some(outcome),
            final(self).taken() == old(self).taken(),
            final(self).writes() == old(self).writes(),
            final(self).empty_writes() == old(self).empty_writes(),
            final(self).last_offer() == old(self).last_offer(),
            final(self).last_write() == old(self).last_write(),
            outcome matches AsyncResult::Success(Async::Ready(count)) ==> count <= old(buf)@.len(),
            final(self).handed() == old(self).handed() + match outcome {
                AsyncResult::Success(Async::Ready(count)) => final(buf)@.take(count as int),
                _ => Seq::empty(),
            },
            final(self).empty_reads() == old(self).empty_reads() + if moved_bytes(outcome) {
                0nat
            } else {
                1nat
            },
    {
        let ghost room = buf@.len();
        let outcome = self.stream.partial_read_async(buf);
        let ghost answer = outcome;
        proof {
            self.reads@ = self.reads@ + 1;
            self.last_room@ = room;
            self.last_read@ = Some(answer);
            match answer {
                AsyncResult::Success(Async::Ready(count)) => {
                    self.handed@ = self.handed@ + buf@.take(count as int);
                    if count == 0 {
                        self.empty_reads@ = self.empty_reads@ + 1;
                    }
                },
                _ => {
                    assert(self.handed@ + Seq::<u8>::empty() =~= self.handed@);
                    self.empty_reads@ = self.empty_reads@ + 1;
                },
            }
        }
        outcome
    }
}

impl<S: AsyncWrite> Recorded<S> {
    /// One attempt to write `buf`, which holds at least a byte, put on
    /// record with its answer: after `Ready(n)` the stream has taken the
    /// first `n` bytes of `buf`. An attempt at which no byte was taken is
    /// counted as such: the stream had no room for now, it took nothing, or
    /// an error came. With nothing to take the answer `Ready(0)` would say
    /// nothing of the stream, so `buf` must hold a byte.
    pub fn write(&mut self, buf: &[u8]) -> (outcome: AsyncResult<Async<usize>, std::io::Error>)
        requires
            buf@.len() > 0,
        ensures
            final(self).writes() == old(self).writes() + 1,
            final(self).last_offer() == buf@,
            final(self).last_write() == Some(outcome),
            final(self).handed() == old(self).handed(),
            final(self).reads() == old(self).reads(),
            final(self).empty_reads() == old(self).empty_reads(),
            final(self).last_room() == old(self).last_room(),
            final(self).last_read() == old(self).last_read(),
            outcome matches AsyncResult::Success(Async::Ready(count)) ==> count <= buf@.len(),
            final(self).taken() == old(self).taken() + match outcome {
                AsyncResult::Success(Async::Ready(count)) => buf@.take(count as int),
                _ => Seq::empty(),
            },
            final(self).empty_writes() == old(self).empty_writes() + if moved_bytes(outcome) {
                0nat
            } else {
                1nat
            },
    {
        let outcome = self.stream.partial_write_async(buf);
        let ghost answer = outcome;
        proof {
            self.writes@ = self.writes@ + 1;
            self.last_offer@ = buf@;
            self.last_write@ = Some(answer);
            match answer {
                AsyncResult::Success(Async::Ready(count)) => {
                    self.taken@ = self.taken@ + buf@.take(count as int);
                    if count == 0 {
                        self.empty_writes@ = self.empty_writes@ + 1;
                    }
                },
                _ => {
                    assert(self.taken@ + Seq::<u8>::empty() =~= self.taken@);
                    self.empty_writes@ = self.empty_writes@ + 1;
                },
            }
        }
        outcome
    }
}

} // verus!
