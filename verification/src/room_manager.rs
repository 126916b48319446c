//! The rooms of the server: which names have a room, and whether a new name
//! may still have one. Each room runs as one job of a bounded thread pool.

use threadpool::ThreadPool;
use vstd::prelude::*;
use vstd::utf8::valid_utf8;

verus! {

/// `threadpool::ThreadPool`, opaque.
#[verifier::external_type_specification]
#[verifier::external_body]
pub struct ExThreadPool(ThreadPool);

/// How many jobs have been handed to `pool` since it was made.
pub uninterp spec fn pool_jobs(pool: ThreadPool) -> nat;

/// `ThreadPool::new`: a pool of `num_threads` workers that has been handed
/// no job. It panics when `num_threads` is zero.
#[verifier::external_body]
fn pool_new(num_threads: usize) -> (pool: ThreadPool)
    requires
        num_threads > 0,
    ensures
        pool_jobs(pool) == 0,
{
    ThreadPool::new(num_threads)
}

/// `ThreadPool::execute`: hands `job` to the pool, which is then one job
/// further.
#[verifier::external_body]
fn pool_execute<F>(pool: &mut ThreadPool, job: F) where F: FnOnce() + Send + 'static
    ensures
        pool_jobs(*final(pool)) == pool_jobs(*old(pool)) + 1,
{
    pool.execute(job)
}

/// `ThreadPool::active_count`: how many jobs are running at this moment. A
/// worker counts itself in only once it holds a job, so the count never
/// exceeds the jobs handed over.
#[verifier::external_body]
fn pool_active_count(pool: &ThreadPool) -> (active: usize)
    ensures
        active <= pool_jobs(*pool),
{
    pool.active_count()
}

/// `ThreadPool::join`: blocks until no job is queued or running.
#[verifier::external_body]
fn pool_join(pool: &ThreadPool) {
    pool.join()
}

/// `std::str::from_utf8`: it succeeds on well-formed UTF-8 and on nothing
/// else.
#[verifier::external_body]
fn is_utf8(bytes: &[u8]) -> (valid: bool)
    ensures
        valid == valid_utf8(bytes@),
{
    std::str::from_utf8(bytes).is_ok()
}

/// Why a connection was not taken into a room.
#[derive(Debug, Clone, Copy, PartialEq, Eq, Structural)]
pub enum DispatchError {
    /// The first line of the connection names no room: it is missing, not
    /// ended by a newline, or not UTF-8.
    HandshakeReadFailure,
    /// The name is new and every slot of the pool has its room.
    RoomSaturated,
}

/// Where a connection goes.
#[derive(Debug, Clone, Copy, PartialEq, Eq, Structural)]
pub struct Admission {
    /// The number of the room, counted from zero in the order in which the
    /// rooms were made.
    pub room: usize,
    /// Whether the room was made for this connection.
    pub created: bool,
}

/// The byte that ends the line of the handshake.
pub const NEWLINE: u8 = 10;

/// The room that the handshake `line` names: what stands before the newline,
/// if `line` is UTF-8 and holds one newline, at its end.
pub open spec fn handshake_name(line: Seq<u8>) -> Option<Seq<u8>> {
    if line.len() > 0 && line.last() == NEWLINE && !line.drop_last().contains(NEWLINE)
        && valid_utf8(line) {
        Some(line.drop_last())
    } else {
        None
    }
}

/// No name stands twice in `rooms`.
pub open spec fn distinct(rooms: Seq<Seq<u8>>) -> bool {
    forall|i: int, j: int| 0 <= i < j < rooms.len() ==> rooms[i] != rooms[j]
}

/// What becomes of a connection whose handshake is `line`, when `rooms` have
/// been made and `capacity` may be: a line that names no room is a failed
/// handshake; a name that has a room goes to it; a new name gets the next
/// room while there are fewer than `capacity`, and is turned away after.
pub open spec fn admission_for(rooms: Seq<Seq<u8>>, capacity: nat, line: Seq<u8>) -> Result<
    Admission,
    DispatchError,
> {
    match handshake_name(line) {
        None => Err(DispatchError::HandshakeReadFailure),
        Some(name) => if rooms.contains(name) {
            Ok(Admission { room: rooms.index_of(name) as usize, created: false })
        } else if rooms.len() < capacity {
            Ok(Admission { room: rooms.len() as usize, created: true })
        } else {
            Err(DispatchError::RoomSaturated)
        },
    }
}

/// The rooms after that connection: one more, at the end, where a room was
/// made, and the same otherwise.
pub open spec fn rooms_after(rooms: Seq<Seq<u8>>, capacity: nat, line: Seq<u8>) -> Seq<Seq<u8>> {
    match handshake_name(line) {
        Some(name) => if !rooms.contains(name) && rooms.len() < capacity {
            rooms.push(name)
        } else {
            rooms
        },
        None => rooms,
    }
}

/// The rooms after the connections whose handshakes are `lines` have come,
/// one after the other.
pub open spec fn rooms_after_all(rooms: Seq<Seq<u8>>, capacity: nat, lines: Seq<Seq<u8>>) -> Seq<
    Seq<u8>,
>
    decreases lines.len(),
{
    if lines.len() == 0 {
        rooms
    } else {
        rooms_after(rooms_after_all(rooms, capacity, lines.drop_last()), capacity, lines.last())
    }
}

/// The names in the first `count` of `lines`.
pub open spec fn names_in(lines: Seq<Seq<u8>>, count: int) -> Seq<Seq<u8>> {
    Seq::new(count as nat, |i: int| handshake_name(lines[i])->0)
}

/// As long as the lines name rooms, all different and no more than may be,
/// each of them gets its room.
proof fn lemma_rooms_fill(lines: Seq<Seq<u8>>, capacity: nat, count: int)
    requires
        0 <= count <= lines.len(),
        count <= capacity,
        forall|i: int| 0 <= i < lines.len() ==> handshake_name(#[trigger] lines[i]) is Some,
        forall|i: int, j: int|
            0 <= i < j < lines.len() ==> handshake_name(lines[i]) != handshake_name(lines[j]),
    ensures
        rooms_after_all(Seq::empty(), capacity, lines.take(count)) == names_in(lines, count),
    decreases count,
{
    if count == 0 {
        assert(names_in(lines, 0) =~= Seq::<Seq<u8>>::empty());
    } else {
        lemma_rooms_fill(lines, capacity, count - 1);
        let front = lines.take(count);
        assert(front.drop_last() =~= lines.take(count - 1));
        assert(front.last() == lines[count - 1]);
        let before = names_in(lines, count - 1);
        let name = handshake_name(lines[count - 1])->0;
        if before.contains(name) {
            let i = choose|i: int| 0 <= i < before.len() && before[i] == name;
            assert(handshake_name(lines[i]) != handshake_name(lines[count - 1]));
        }
        assert(before.push(name) =~= names_in(lines, count));
    }
}

/// Admission: let `lines` be handshakes that name as many rooms as may be,
/// all different, and let them come to a manager without rooms. Then each
/// in its turn gets a room of its own, numbered in that order. After them a
/// line with yet another name is turned away for want of a slot, and each of
/// the first lines still leads to the room it got.
pub proof fn lemma_admission(lines: Seq<Seq<u8>>, capacity: nat, extra: Seq<u8>)
    requires
        lines.len() == capacity,
        capacity <= usize::MAX,
        forall|i: int| 0 <= i < lines.len() ==> handshake_name(#[trigger] lines[i]) is Some,
        forall|i: int, j: int|
            0 <= i < j < lines.len() ==> handshake_name(lines[i]) != handshake_name(lines[j]),
        handshake_name(extra) is Some,
        forall|i: int|
            0 <= i < lines.len() ==> handshake_name(#[trigger] lines[i]) != handshake_name(extra),
    ensures
        forall|i: int|
            0 <= i < lines.len() ==> admission_for(
                rooms_after_all(Seq::empty(), capacity, #[trigger] lines.take(i)),
                capacity,
                lines[i],
            ) == Ok::<Admission, DispatchError>(Admission { room: i as usize, created: true }),
        admission_for(rooms_after_all(Seq::empty(), capacity, lines), capacity, extra) == Err::<
            Admission,
            DispatchError,
        >(DispatchError::RoomSaturated),
        rooms_after(rooms_after_all(Seq::empty(), capacity, lines), capacity, extra)
            == rooms_after_all(Seq::empty(), capacity, lines),
        forall|i: int|
            0 <= i < lines.len() ==> admission_for(
                rooms_after_all(Seq::empty(), capacity, lines),
                capacity,
                #[trigger] lines[i],
            ) == Ok::<Admission, DispatchError>(Admission { room: i as usize, created: false }),
{
    let full = rooms_after_all(Seq::empty(), capacity, lines);
    assert(lines.take(lines.len() as int) =~= lines);
    lemma_rooms_fill(lines, capacity, lines.len() as int);
    assert(full == names_in(lines, lines.len() as int));
    assert forall|i: int| 0 <= i < lines.len() implies admission_for(
        rooms_after_all(Seq::empty(), capacity, #[trigger] lines.take(i)),
        capacity,
        lines[i],
    ) == Ok::<Admission, DispatchError>(Admission { room: i as usize, created: true }) by {
        lemma_rooms_fill(lines, capacity, i);
        let before = names_in(lines, i);
        let name = handshake_name(lines[i])->0;
        if before.contains(name) {
            let k = choose|k: int| 0 <= k < before.len() && before[k] == name;
            assert(handshake_name(lines[k]) != handshake_name(lines[i]));
        }
    }
    let other = handshake_name(extra)->0;
    if full.contains(other) {
        let k = choose|k: int| 0 <= k < full.len() && full[k] == other;
        assert(handshake_name(lines[k]) != handshake_name(extra));
    }
    assert forall|i: int| 0 <= i < lines.len() implies admission_for(
        full,
        capacity,
        #[trigger] lines[i],
    ) == Ok::<Admission, DispatchError>(Admission { room: i as usize, created: false }) by {
        let name = handshake_name(lines[i])->0;
        assert(full[i] == name);
        assert(full.contains(name));
        let found = full.index_of(name);
        if found < i {
            assert(handshake_name(lines[found]) != handshake_name(lines[i]));
        } else if i < found {
            assert(handshake_name(lines[i]) != handshake_name(lines[found]));
        }
    }
}

/// The names that `list` holds.
pub open spec fn names(list: Seq<Vec<u8>>) -> Seq<Seq<u8>> {
    list.map_values(|name: Vec<u8>| name@)
}

/// Whether `left` and `right` hold the same bytes.
fn same_bytes(left: &[u8], right: &[u8]) -> (same: bool)
    ensures
        same == (left@ == right@),
{
    if left.len() != right.len() {
        return false;
    }
    let mut at: usize = 0;
    while at < left.len()
        invariant
            at <= left@.len(),
            left@.len() == right@.len(),
            forall|i: int| 0 <= i < at ==> left@[i] == right@[i],
        decreases left@.len() - at,
    {
        if left[at] != right[at] {
            return false;
        }
        at = at + 1;
    }
    assert(left@ =~= right@);
    true
}

/// The registry of rooms, with the pool that runs them.
pub struct RoomManager {
    pool: ThreadPool,
    num_threads: usize,
    room_list: Vec<Vec<u8>>,
}

impl RoomManager {
    /// The names that have a room, in the order in which the rooms were made.
    pub closed spec fn rooms(&self) -> Seq<Seq<u8>> {
        names(self.room_list@)
    }

    /// How many rooms there may be.
    pub closed spec fn capacity(&self) -> nat {
        self.num_threads as nat
    }

    /// Each room is one job of the pool.
    pub closed spec fn inv(&self) -> bool {
        pool_jobs(self.pool) == self.room_list@.len()
    }

    /// There are no more rooms than the pool has slots, each room is one job
    /// of the pool, and no two rooms have the same name.
    pub open spec fn wf(&self) -> bool {
        &&& self.inv()
        &&& self.capacity() > 0
        &&& self.rooms().len() <= self.capacity()
        &&& distinct(self.rooms())
    }

    /// A manager without rooms, for at most `num_threads` of them.
    pub fn new(num_threads: usize) -> (manager: RoomManager)
        requires
            num_threads > 0,
        ensures
            manager.wf(),
            manager.capacity() == num_threads,
            manager.rooms() == Seq::<Seq<u8>>::empty(),
    {
        let manager = RoomManager {
            pool: pool_new(num_threads),
            num_threads,
            room_list: Vec::new(),
        };
        assert(names(manager.room_list@) =~= Seq::<Seq<u8>>::empty());
        manager
    }

    /// How many rooms there are.
    pub fn room_count(&self) -> (count: usize)
        ensures
            count == self.rooms().len(),
    {
        self.room_list.len()
    }

    /// The room that the handshake `line` names, or `HandshakeReadFailure`
    /// where it names none.
    pub fn get_room_name(line: &[u8]) -> (name: Result<Vec<u8>, DispatchError>)
        ensures
            match handshake_name(line@) {
                Some(room) => name matches Ok(bytes) && bytes@ == room,
                None => name == Err::<Vec<u8>, DispatchError>(DispatchError::HandshakeReadFailure),
            },
    {
        let length = line.len();
        if length == 0 {
            return Err(DispatchError::HandshakeReadFailure);
        }
        if line[length - 1] != NEWLINE {
            return Err(DispatchError::HandshakeReadFailure);
        }
        let mut name: Vec<u8> = Vec::new();
        let mut at: usize = 0;
        while at < length - 1
            invariant
                at <= length - 1,
                length == line@.len(),
                name@ == line@.take(at as int),
                !line@.take(at as int).contains(NEWLINE),
            decreases length - 1 - at,
        {
            let byte = line[at];
            if byte == NEWLINE {
                proof {
                    assert(line@.drop_last()[at as int] == NEWLINE);
                }
                return Err(DispatchError::HandshakeReadFailure);
            }
            name.push(byte);
            proof {
                assert(name@ =~= line@.take(at + 1));
                assert(line@.take(at + 1) =~= line@.take(at as int).push(byte));
            }
            at = at + 1;
        }
        proof {
            assert(line@.take(at as int) =~= line@.drop_last());
        }
        if !is_utf8(line) {
            return Err(DispatchError::HandshakeReadFailure);
        }
        Ok(name)
    }

    /// The number of the room called `name`, if there is one.
    pub fn find(&self, name: &[u8]) -> (room: Option<usize>)
        requires
            self.wf(),
        ensures
            match room {
                Some(number) => number < self.rooms().len() && self.rooms()[number as int]
                    == name@,
                None => !self.rooms().contains(name@),
            },
    {
        let mut at: usize = 0;
        while at < self.room_list.len()
            invariant
                at <= self.room_list@.len(),
                forall|i: int| 0 <= i < at ==> names(self.room_list@)[i] != name@,
            decreases self.room_list@.len() - at,
        {
            if same_bytes(self.room_list[at].as_slice(), name) {
                assert(names(self.room_list@)[at as int] == name@);
                return Some(at);
            }
            assert(names(self.room_list@)[at as int] == self.room_list@[at as int]@);
            at = at + 1;
        }
        None
    }

    /// Makes a room called `name` and hands `job`, which is to run it, to the
    /// pool, if a slot is free. Otherwise nothing happens.
    pub fn create_room<F>(&mut self, name: Vec<u8>, job: F) -> (room: Option<usize>) where
        F: FnOnce() + Send + 'static,

        requires
            old(self).wf(),
            !old(self).rooms().contains(name@),
        ensures
            final(self).wf(),
            final(self).capacity() == old(self).capacity(),
            old(self).rooms().len() < old(self).capacity() ==> room == Some(
                old(self).rooms().len() as usize,
            ) && final(self).rooms() == old(self).rooms().push(name@),
            old(self).rooms().len() >= old(self).capacity() ==> room is None && final(self).rooms()
                == old(self).rooms(),
    {
        let active = pool_active_count(&self.pool);
        if active >= self.num_threads || self.room_list.len() >= self.num_threads {
            None
        } else {
            let number = self.room_list.len();
            let ghost before = names(self.room_list@);
            pool_execute(&mut self.pool, job);
            self.room_list.push(name);
            proof {
                assert(names(self.room_list@) =~= before.push(name@));
                let after = names(self.room_list@);
                assert forall|i: int, j: int| 0 <= i < j < after.len() implies after[i]
                    != after[j] by {
                    if j == number {
                        assert(before.contains(before[i]));
                    }
                }
            }
            Some(number)
        }
    }

    /// Finds the room for a connection whose handshake is `line`. A name
    /// that has a room leads to that room. A new name gets a room, run by
    /// `job`, as long as there are fewer rooms than slots; after that it is
    /// turned away. `job` is dropped where no room is made.
    pub fn handle_connection<F>(&mut self, line: &[u8], job: F) -> (admission: Result<
        Admission,
        DispatchError,
    >) where F: FnOnce() + Send + 'static
        requires
            old(self).wf(),
        ensures
            final(self).wf(),
            final(self).capacity() == old(self).capacity(),
            admission == admission_for(old(self).rooms(), old(self).capacity(), line@),
            final(self).rooms() == rooms_after(old(self).rooms(), old(self).capacity(), line@),
    {
        let name = match Self::get_room_name(line) {
            Ok(name) => name,
            Err(error) => {
                return Err(error);
            },
        };
        match self.find(name.as_slice()) {
            Some(room) => {
                proof {
                    self.lemma_index(name@, room as int);
                }
                Ok(Admission { room, created: false })
            },
            None => {
                match self.create_room(name, job) {
                    Some(room) => Ok(Admission { room, created: true }),
                    None => Err(DispatchError::RoomSaturated),
                }
            },
        }
    }

    /// In a list without repetitions, a name stands where it was found.
    proof fn lemma_index(&self, name: Seq<u8>, at: int)
        requires
            self.wf(),
            0 <= at < self.rooms().len(),
            self.rooms()[at] == name,
        ensures
            self.rooms().contains(name),
            self.rooms().index_of(name) == at,
    {
        let found = self.rooms().index_of(name);
        assert(self.rooms().contains(name));
        if found < at {
            assert(self.rooms()[found] != self.rooms()[at]);
        } else if at < found {
            assert(self.rooms()[at] != self.rooms()[found]);
        }
    }

    /// Whether the manager takes another connection after it has dealt with
    /// one: it does, whether that one was admitted or turned away, until the
    /// token is canceled.
    pub fn after_dispatch(canceled: bool) -> (go_on: bool)
        ensures
            go_on == !canceled,
    {
        !canceled
    }

    /// Waits until every room has come to its end.
    pub fn join(&self) {
        pool_join(&self.pool)
    }
}

} // verus!
