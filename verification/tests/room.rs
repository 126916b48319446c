use chat_server::chat_room::ChatRoom;
use chat_server::transfer::{Async, AsyncRead, AsyncResult, AsyncWrite};
use std::cell::RefCell;
use std::collections::VecDeque;
use std::io::{Error, ErrorKind};
use std::rc::Rc;

/// The far end of a member's stream.
#[derive(Default)]
struct Seat {
    incoming: VecDeque<u8>,
    read_broken: bool,
    written: Vec<u8>,
    room: Option<usize>,
    write_broken: bool,
}

/// A member's stream in memory. Clones are the same stream.
#[derive(Clone, Default)]
struct Member(Rc<RefCell<Seat>>);

impl Member {
    fn says(&self, message_type: u16, payload: &[u8]) {
        self.0.borrow_mut().incoming.extend(wire_of(message_type, payload));
    }

    fn heard(&self) -> Vec<u8> {
        self.0.borrow().written.clone()
    }
}

impl AsyncRead for Member {
    fn partial_read_async(&mut self, buf: &mut [u8]) -> AsyncResult<Async<usize>, Error> {
        let mut seat = self.0.borrow_mut();
        if seat.read_broken {
            return AsyncResult::Failure(Error::new(ErrorKind::ConnectionReset, "reset"));
        }
        if seat.incoming.is_empty() {
            return AsyncResult::Success(Async::NotReady);
        }
        let count = buf.len().min(seat.incoming.len());
        for slot in buf[..count].iter_mut() {
            *slot = seat.incoming.pop_front().unwrap();
        }
        AsyncResult::Success(Async::Ready(count))
    }
}

impl AsyncWrite for Member {
    fn partial_write_async(&mut self, buf: &[u8]) -> AsyncResult<Async<usize>, Error> {
        let mut seat = self.0.borrow_mut();
        if seat.write_broken {
            return AsyncResult::Failure(Error::new(ErrorKind::BrokenPipe, "gone"));
        }
        let count = match seat.room {
            Some(0) => return AsyncResult::Success(Async::NotReady),
            Some(room) => room.min(buf.len()),
            None => buf.len(),
        };
        seat.written.extend_from_slice(&buf[..count]);
        if let Some(room) = seat.room {
            seat.room = Some(room - count);
        }
        AsyncResult::Success(Async::Ready(count))
    }
}

fn wire_of(message_type: u16, payload: &[u8]) -> Vec<u8> {
    let mut bytes = vec![(message_type >> 8) as u8, message_type as u8];
    let length = payload.len() as u32;
    bytes.extend_from_slice(&[(length >> 24) as u8, (length >> 16) as u8, (length >> 8) as u8, length as u8]);
    bytes.extend_from_slice(payload);
    bytes
}

fn room_of_three() -> (ChatRoom<Member>, Member, Member, Member) {
    let (a, b, c) = (Member::default(), Member::default(), Member::default());
    let mut room = ChatRoom::new();
    room.onboard(a.clone());
    room.onboard(b.clone());
    room.onboard(c.clone());
    (room, a, b, c)
}

#[test]
fn a_new_room_is_empty() {
    let room: ChatRoom<Member> = ChatRoom::new();
    assert_eq!(room.member_count(), 0);
}

#[test]
fn a_round_of_an_empty_room_does_nothing() {
    let mut room: ChatRoom<Member> = ChatRoom::new();
    room.tick(None);
    assert_eq!(room.member_count(), 0);
}

#[test]
fn a_round_takes_in_the_newcomer() {
    let mut room = ChatRoom::new();
    room.tick(Some(Member::default()));
    assert_eq!(room.member_count(), 1);
    room.tick(None);
    assert_eq!(room.member_count(), 1);
    room.tick(Some(Member::default()));
    assert_eq!(room.member_count(), 2);
}

#[test]
fn a_message_goes_to_every_member_and_back_to_its_sender() {
    let (mut room, a, b, c) = room_of_three();
    a.says(1, b"hello");
    room.tick(None);
    let expected = wire_of(1, b"hello");
    assert_eq!(a.heard(), expected);
    assert_eq!(b.heard(), expected);
    assert_eq!(c.heard(), expected);
}

#[test]
fn messages_of_one_sender_arrive_in_the_order_sent() {
    let (mut room, a, b, c) = room_of_three();
    a.says(1, b"one");
    a.says(1, b"two");
    a.says(1, b"three");
    room.tick(None);
    room.tick(None);
    room.tick(None);
    let mut expected = wire_of(1, b"one");
    expected.extend(wire_of(1, b"two"));
    expected.extend(wire_of(1, b"three"));
    assert_eq!(a.heard(), expected);
    assert_eq!(b.heard(), expected);
    assert_eq!(c.heard(), expected);
}

#[test]
fn every_member_gets_the_messages_of_a_round_in_the_same_order() {
    let (mut room, a, b, c) = room_of_three();
    c.says(3, b"from c");
    a.says(1, b"from a");
    b.says(2, b"from b");
    room.tick(None);
    let mut expected = wire_of(1, b"from a");
    expected.extend(wire_of(2, b"from b"));
    expected.extend(wire_of(3, b"from c"));
    assert_eq!(a.heard(), expected);
    assert_eq!(b.heard(), expected);
    assert_eq!(c.heard(), expected);
}

#[test]
fn a_round_without_messages_sends_nothing() {
    let (mut room, a, b, c) = room_of_three();
    room.tick(None);
    assert!(a.heard().is_empty());
    assert!(b.heard().is_empty());
    assert!(c.heard().is_empty());
}

#[test]
fn a_newcomer_hears_what_is_said_from_its_round_on() {
    let (mut room, a, _b, _c) = room_of_three();
    a.says(1, b"before");
    room.tick(None);
    let late = Member::default();
    a.says(1, b"after");
    room.tick(Some(late.clone()));
    assert_eq!(late.heard(), wire_of(1, b"after"));
}

#[test]
fn a_slow_member_holds_nobody_up_and_loses_nothing() {
    let (mut room, a, b, c) = room_of_three();
    b.0.borrow_mut().room = Some(4);
    a.says(1, b"first");
    room.tick(None);
    a.says(1, b"second");
    room.tick(None);
    let mut expected = wire_of(1, b"first");
    expected.extend(wire_of(1, b"second"));
    assert_eq!(a.heard(), expected);
    assert_eq!(c.heard(), expected);
    assert_eq!(b.heard(), expected[..4].to_vec());
    b.0.borrow_mut().room = None;
    room.tick(None);
    assert_eq!(b.heard(), expected);
}

#[test]
fn look_then_broadcast_is_what_a_round_does() {
    let (mut room, a, b, c) = room_of_three();
    b.says(2, &[9, 9]);
    room.look_for_new_message();
    assert!(a.heard().is_empty());
    room.broadcast_pending_messages();
    let expected = wire_of(2, &[9, 9]);
    assert_eq!(a.heard(), expected);
    assert_eq!(b.heard(), expected);
    assert_eq!(c.heard(), expected);
    room.broadcast_pending_messages();
    assert_eq!(a.heard(), expected);
}

#[test]
fn a_member_whose_stream_fails_on_reading_leaves_the_room() {
    let (mut room, a, b, c) = room_of_three();
    b.0.borrow_mut().read_broken = true;
    a.says(1, b"x");
    room.tick(None);
    assert_eq!(room.member_count(), 2);
    assert_eq!(a.heard(), wire_of(1, b"x"));
    assert_eq!(c.heard(), wire_of(1, b"x"));
    assert!(b.heard().is_empty());
}

#[test]
fn a_member_whose_stream_fails_on_writing_leaves_the_room() {
    let (mut room, a, b, c) = room_of_three();
    c.0.borrow_mut().write_broken = true;
    a.says(1, b"x");
    room.tick(None);
    assert_eq!(room.member_count(), 2);
    assert_eq!(a.heard(), wire_of(1, b"x"));
    assert_eq!(b.heard(), wire_of(1, b"x"));
    b.says(2, b"y");
    room.tick(None);
    let mut expected = wire_of(1, b"x");
    expected.extend(wire_of(2, b"y"));
    assert_eq!(a.heard(), expected);
    assert_eq!(b.heard(), expected);
}

#[test]
fn remove_failed_tells_how_many_went_and_keeps_the_rest() {
    let (mut room, a, b, c) = room_of_three();
    a.0.borrow_mut().read_broken = true;
    c.0.borrow_mut().read_broken = true;
    assert_eq!(room.remove_failed(), 0);
    room.look_for_new_message();
    assert_eq!(room.member_count(), 3);
    assert_eq!(room.remove_failed(), 2);
    assert_eq!(room.member_count(), 1);
    assert_eq!(room.remove_failed(), 0);
    b.says(5, b"alone");
    room.tick(None);
    assert_eq!(b.heard(), wire_of(5, b"alone"));
}
