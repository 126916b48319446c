use chat_server::message::Message;
use chat_server::reader::{AsyncReadResult, AsyncReader};
use chat_server::transfer::{
    after_error, classify, Async, AsyncRead, AsyncResult, AsyncWrite, ErrorClass, Recorded,
};
use chat_server::writer::{AsyncWriteResult, AsyncWriter};
use std::collections::VecDeque;
use std::io::{Error, ErrorKind};

/// What a scripted source answers to one attempt.
enum Answer {
    Bytes(Vec<u8>),
    Dry,
    End,
    Broken,
}

/// A source that gives its answers in turn, and is dry when it has no more.
struct Source {
    answers: VecDeque<Answer>,
    attempts: usize,
    largest_buffer: usize,
}

impl Source {
    fn of(answers: Vec<Answer>) -> Recorded<Source> {
        Recorded::new(Source { answers: answers.into(), attempts: 0, largest_buffer: 0 })
    }

    /// The bytes in pieces of at most `piece`, then dry.
    fn pieces(bytes: &[u8], piece: usize) -> Recorded<Source> {
        Source::of(bytes.chunks(piece).map(|part| Answer::Bytes(part.to_vec())).collect())
    }
}

impl AsyncRead for Source {
    fn partial_read_async(&mut self, buf: &mut [u8]) -> AsyncResult<Async<usize>, Error> {
        self.attempts += 1;
        self.largest_buffer = self.largest_buffer.max(buf.len());
        match self.answers.pop_front() {
            None | Some(Answer::Dry) => AsyncResult::Success(Async::NotReady),
            Some(Answer::End) => AsyncResult::Success(Async::Ready(0)),
            Some(Answer::Broken) => AsyncResult::Failure(Error::new(ErrorKind::Other, "broken")),
            Some(Answer::Bytes(bytes)) => {
                let count = bytes.len().min(buf.len());
                buf[..count].copy_from_slice(&bytes[..count]);
                if count < bytes.len() {
                    self.answers.push_front(Answer::Bytes(bytes[count..].to_vec()));
                }
                AsyncResult::Success(Async::Ready(count))
            },
        }
    }
}

/// What a scripted sink does at one attempt.
enum Room {
    Take(usize),
    Full,
    Nothing,
    Broken,
}

/// A sink that acts by its script, and takes everything when the script is over.
struct Sink {
    script: VecDeque<Room>,
    taken: Vec<u8>,
    offered: Vec<Vec<u8>>,
}

impl Sink {
    fn of(script: Vec<Room>) -> Recorded<Sink> {
        Recorded::new(Sink { script: script.into(), taken: Vec::new(), offered: Vec::new() })
    }
}

impl AsyncWrite for Sink {
    fn partial_write_async(&mut self, buf: &[u8]) -> AsyncResult<Async<usize>, Error> {
        self.offered.push(buf.to_vec());
        match self.script.pop_front() {
            None => {
                self.taken.extend_from_slice(buf);
                AsyncResult::Success(Async::Ready(buf.len()))
            },
            Some(Room::Take(most)) => {
                let count = most.min(buf.len());
                self.taken.extend_from_slice(&buf[..count]);
                AsyncResult::Success(Async::Ready(count))
            },
            Some(Room::Full) => AsyncResult::Success(Async::NotReady),
            Some(Room::Nothing) => AsyncResult::Success(Async::Ready(0)),
            Some(Room::Broken) => AsyncResult::Failure(Error::new(ErrorKind::BrokenPipe, "gone")),
        }
    }
}

fn frame_of(message_type: u16, payload: &[u8]) -> Vec<u8> {
    let mut bytes = vec![(message_type >> 8) as u8, message_type as u8];
    let length = payload.len() as u32;
    bytes.extend_from_slice(&[(length >> 24) as u8, (length >> 16) as u8, (length >> 8) as u8, length as u8]);
    bytes.extend_from_slice(payload);
    bytes
}

fn read_whole(source: &mut Recorded<Source>) -> Message {
    let mut reader = AsyncReader::new();
    loop {
        reader.async_read_round(source);
        match reader.finish() {
            Ok(AsyncReadResult::Ready(message)) => return message,
            Ok(AsyncReadResult::NotReady(rest)) => {
                assert!(!source.get_ref().answers.is_empty(), "the source ran dry before the frame was whole");
                assert!(source.get_ref().attempts < 1_000_000);
                reader = rest;
            },
            Ok(AsyncReadResult::Closed) => panic!("the source was closed"),
            Err(error) => panic!("the source failed: {}", error),
        }
    }
}

#[test]
fn writer_puts_out_type_length_payload_in_network_order() {
    let mut sink = Sink::of(vec![]);
    let mut writer = AsyncWriter::new(Message::new(0x0102, 3, vec![7, 8, 9]));
    writer.async_write_round(&mut sink);
    assert!(writer.done());
    assert!(matches!(writer.finish(), Ok(AsyncWriteResult::Ready)));
    assert_eq!(sink.get_ref().taken, vec![1, 2, 0, 0, 0, 3, 7, 8, 9]);
}

#[test]
fn writer_offers_one_field_at_a_time() {
    let mut sink = Sink::of(vec![]);
    let mut writer = AsyncWriter::new(Message::new(0x0102, 3, vec![7, 8, 9]));
    writer.async_write_round(&mut sink);
    assert_eq!(sink.get_ref().offered, vec![vec![1, 2], vec![0, 0, 0, 3], vec![7, 8, 9]]);
}

#[test]
fn writer_of_an_empty_message_puts_out_the_header_only() {
    let mut sink = Sink::of(vec![]);
    let mut writer = AsyncWriter::new(Message::new(0xFFFF, 0, Vec::new()));
    writer.async_write_round(&mut sink);
    assert!(matches!(writer.finish(), Ok(AsyncWriteResult::Ready)));
    assert_eq!(sink.get_ref().taken, vec![0xFF, 0xFF, 0, 0, 0, 0]);
}

#[test]
fn one_poll_of_the_writer_is_one_attempt() {
    let mut sink = Sink::of(vec![]);
    let mut writer = AsyncWriter::new(Message::new(1, 1, vec![5]));
    writer.async_write(&mut sink);
    assert_eq!(sink.get_ref().offered.len(), 1);
    assert!(!writer.done());
    writer.async_write(&mut sink);
    assert_eq!(sink.get_ref().offered.len(), 2);
    assert!(!writer.done());
    writer.async_write(&mut sink);
    assert_eq!(sink.get_ref().offered.len(), 3);
    assert!(writer.done());
    writer.async_write(&mut sink);
    assert_eq!(sink.get_ref().offered.len(), 3);
}

#[test]
fn writer_takes_up_again_after_a_partial_write() {
    let mut sink = Sink::of(vec![Room::Take(1), Room::Take(1), Room::Take(3), Room::Take(1), Room::Take(2), Room::Full]);
    let mut writer = AsyncWriter::new(Message::new(0x0A0B, 5, vec![1, 2, 3, 4, 5]));
    writer.async_write_round(&mut sink);
    assert_eq!(sink.get_ref().taken, vec![0x0A, 0x0B, 0, 0, 0, 5, 1, 2]);
    let rest = match writer.finish() {
        Ok(AsyncWriteResult::NotReady(rest)) => rest,
        _ => panic!("the sink was full before the frame was out"),
    };
    assert!(!rest.done());
    let mut writer = rest;
    writer.async_write_round(&mut sink);
    assert!(matches!(writer.finish(), Ok(AsyncWriteResult::Ready)));
    assert_eq!(sink.get_ref().taken, frame_of(0x0A0B, &[1, 2, 3, 4, 5]));
}

#[test]
fn writer_reports_a_sink_that_takes_nothing_as_stalled() {
    let mut sink = Sink::of(vec![Room::Take(2), Room::Nothing]);
    let mut writer = AsyncWriter::new(Message::new(3, 1, vec![9]));
    writer.async_write_round(&mut sink);
    assert!(writer.done());
    let rest = match writer.finish() {
        Ok(AsyncWriteResult::Stalled(rest)) => rest,
        Ok(AsyncWriteResult::NotReady(_)) => panic!("stalled must differ from not ready"),
        Ok(AsyncWriteResult::Ready) => panic!("the frame is not out"),
        Err(_) => panic!("stalled must differ from an error"),
    };
    let mut writer = rest;
    writer.async_write_round(&mut sink);
    assert!(matches!(writer.finish(), Ok(AsyncWriteResult::Ready)));
    assert_eq!(sink.get_ref().taken, frame_of(3, &[9]));
}

#[test]
fn writer_hands_on_the_error_of_the_sink() {
    let mut sink = Sink::of(vec![Room::Take(2), Room::Broken]);
    let mut writer = AsyncWriter::new(Message::new(3, 1, vec![9]));
    writer.async_write_round(&mut sink);
    assert!(writer.done());
    match writer.finish() {
        Err(error) => assert_eq!(error.kind(), ErrorKind::BrokenPipe),
        Ok(_) => panic!("the sink failed"),
    }
    assert_eq!(sink.get_ref().taken, vec![0, 3]);
}

#[test]
fn writer_advance_counts_bytes_and_ends_with_the_frame() {
    let mut writer = AsyncWriter::new(Message::new(3, 1, vec![9]));
    writer.advance(AsyncResult::Success(Async::Ready(2)));
    assert!(!writer.done());
    writer.advance(AsyncResult::Success(Async::Ready(4)));
    assert!(!writer.done());
    writer.advance(AsyncResult::Success(Async::Ready(1)));
    assert!(writer.done());
    assert!(matches!(writer.finish(), Ok(AsyncWriteResult::Ready)));
}

#[test]
fn writer_advance_not_ready_ends_the_round_only() {
    let mut writer = AsyncWriter::new(Message::new(3, 1, vec![9]));
    writer.advance(AsyncResult::Success(Async::NotReady));
    assert!(writer.done());
    assert!(matches!(writer.finish(), Ok(AsyncWriteResult::NotReady(_))));
}

#[test]
fn reader_decodes_a_frame_that_comes_in_one_piece() {
    let mut source = Source::pieces(&[1, 2, 0, 0, 0, 3, 7, 8, 9], 64);
    let message = read_whole(&mut source);
    assert_eq!(message.message_type(), 0x0102);
    assert_eq!(message.length(), 3);
    assert_eq!(message.data(), &[7, 8, 9]);
}

#[test]
fn reader_never_asks_beyond_the_field_under_way() {
    let mut source = Source::pieces(&[1, 2, 0, 0, 0, 3, 7, 8, 9, 0xEE, 0xEE], 64);
    let message = read_whole(&mut source);
    assert_eq!(message.data(), &[7, 8, 9]);
    assert_eq!(source.get_ref().largest_buffer, 4);
    match source.into_inner().answers.pop_front() {
        Some(Answer::Bytes(rest)) => assert_eq!(rest, vec![0xEE, 0xEE]),
        _ => panic!("what follows the frame must stay in the source"),
    }
}

#[test]
fn reader_is_done_as_soon_as_the_last_byte_is_in() {
    let mut source = Source::pieces(&[0, 1, 0, 0, 0, 1, 5], 64);
    let mut reader = AsyncReader::new();
    reader.async_read(&mut source);
    assert!(!reader.done());
    reader.async_read(&mut source);
    assert!(!reader.done());
    reader.async_read(&mut source);
    assert!(reader.done());
    assert_eq!(source.get_ref().attempts, 3);
    reader.async_read(&mut source);
    assert_eq!(source.get_ref().attempts, 3);
    assert!(matches!(reader.finish(), Ok(AsyncReadResult::Ready(_))));
}

#[test]
fn reader_decodes_an_empty_payload() {
    let mut source = Source::pieces(&[0, 7, 0, 0, 0, 0], 64);
    let message = read_whole(&mut source);
    assert_eq!(message.message_type(), 7);
    assert_eq!(message.length(), 0);
    assert!(message.data().is_empty());
    assert_eq!(source.get_ref().attempts, 2);
}

#[test]
fn reader_gives_the_same_message_for_every_cut_in_two() {
    let frame = frame_of(0xCAFE, &[10, 20, 30, 40, 50, 60, 70]);
    for cut in 0..=frame.len() {
        let mut answers = Vec::new();
        if cut > 0 {
            answers.push(Answer::Bytes(frame[..cut].to_vec()));
        }
        answers.push(Answer::Dry);
        if cut < frame.len() {
            answers.push(Answer::Bytes(frame[cut..].to_vec()));
        }
        let mut source = Source::of(answers);
        let message = read_whole(&mut source);
        assert_eq!(message.message_type(), 0xCAFE);
        assert_eq!(message.length(), 7);
        assert_eq!(message.data(), &[10, 20, 30, 40, 50, 60, 70]);
    }
}

#[test]
fn reader_gives_the_same_message_for_every_size_of_piece() {
    let payload: Vec<u8> = (0..200u32).map(|i| (i * 7) as u8).collect();
    let frame = frame_of(513, &payload);
    for piece in 1..=frame.len() {
        let mut source = Source::pieces(&frame, piece);
        let message = read_whole(&mut source);
        assert_eq!(message.message_type(), 513);
        assert_eq!(message.length(), 200);
        assert_eq!(message.data(), &payload[..]);
    }
}

#[test]
fn reader_takes_up_again_in_the_middle_of_a_field() {
    let mut source = Source::of(vec![
        Answer::Bytes(vec![0x12]),
        Answer::Dry,
        Answer::Bytes(vec![0x34, 0, 0]),
        Answer::Dry,
        Answer::Bytes(vec![0, 2, 0xAA]),
        Answer::Dry,
        Answer::Bytes(vec![0xBB]),
    ]);
    let mut reader = AsyncReader::new();
    for _ in 0..3 {
        reader.async_read_round(&mut source);
        reader = match reader.finish() {
            Ok(AsyncReadResult::NotReady(rest)) => rest,
            _ => panic!("the frame is not whole yet"),
        };
        assert!(!reader.done());
    }
    reader.async_read_round(&mut source);
    match reader.finish() {
        Ok(AsyncReadResult::Ready(message)) => {
            assert_eq!(message.message_type(), 0x1234);
            assert_eq!(message.length(), 2);
            assert_eq!(message.data(), &[0xAA, 0xBB]);
        },
        _ => panic!("the frame is whole"),
    }
}

#[test]
fn round_trip_of_the_largest_type_and_a_payload_of_65536_bytes() {
    let payload: Vec<u8> = (0..65536u32).map(|i| (i % 251) as u8).collect();
    let mut sink = Sink::of(vec![]);
    let mut writer = AsyncWriter::new(Message::new(65535, 65536, payload.clone()));
    writer.async_write_round(&mut sink);
    assert!(matches!(writer.finish(), Ok(AsyncWriteResult::Ready)));
    assert_eq!(sink.get_ref().taken.len(), 6 + 65536);
    let mut source = Source::pieces(&sink.get_ref().taken, 1000);
    let message = read_whole(&mut source);
    assert_eq!(message.message_type(), 65535);
    assert_eq!(message.length(), 65536);
    assert_eq!(message.data(), &payload[..]);
}

#[test]
fn round_trip_for_a_range_of_types_and_lengths() {
    for (message_type, length) in [(0u16, 0usize), (1, 1), (255, 2), (256, 255), (32768, 256), (65535, 1025)] {
        let payload: Vec<u8> = (0..length).map(|i| (i * 31 + 5) as u8).collect();
        let mut sink = Sink::of(vec![Room::Take(1), Room::Take(1), Room::Take(2), Room::Take(2)]);
        let mut writer = AsyncWriter::new(Message::new(message_type, length as u32, payload.clone()));
        writer.async_write_round(&mut sink);
        assert!(matches!(writer.finish(), Ok(AsyncWriteResult::Ready)));
        let mut source = Source::pieces(&sink.get_ref().taken, 3);
        let message = read_whole(&mut source);
        assert_eq!(message.message_type(), message_type);
        assert_eq!(message.length() as usize, length);
        assert_eq!(message.data(), &payload[..]);
    }
}

#[test]
fn half_close_ends_the_round_without_a_message() {
    let mut source = Source::of(vec![Answer::End]);
    let mut reader = AsyncReader::new();
    reader.async_read_round(&mut source);
    assert!(reader.done());
    match reader.finish() {
        Ok(AsyncReadResult::Closed) => {},
        Ok(AsyncReadResult::Ready(_)) => panic!("nothing came in: there is no message"),
        Ok(AsyncReadResult::NotReady(_)) => panic!("a closed source is not merely dry"),
        Err(_) => panic!("a closed source is no error"),
    }
}

#[test]
fn half_close_in_the_middle_of_a_frame_gives_no_message() {
    let mut source = Source::of(vec![Answer::Bytes(vec![0, 1, 0, 0, 0, 4, 9, 9]), Answer::End]);
    let mut reader = AsyncReader::new();
    reader.async_read_round(&mut source);
    assert!(matches!(reader.finish(), Ok(AsyncReadResult::Closed)));
}

#[test]
fn a_closed_reader_is_not_polled_again() {
    let mut source = Source::of(vec![Answer::End, Answer::Bytes(vec![1, 2])]);
    let mut reader = AsyncReader::new();
    reader.async_read(&mut source);
    reader.async_read(&mut source);
    assert_eq!(source.get_ref().attempts, 1);
    assert!(matches!(reader.finish(), Ok(AsyncReadResult::Closed)));
}

#[test]
fn a_dry_source_gives_the_reader_back() {
    let mut source = Source::of(vec![Answer::Dry]);
    let mut reader = AsyncReader::new();
    reader.async_read_round(&mut source);
    assert!(reader.done());
    match reader.finish() {
        Ok(AsyncReadResult::NotReady(rest)) => assert!(!rest.done()),
        _ => panic!("a dry source is neither closed nor broken"),
    }
}

#[test]
fn reader_hands_on_the_error_of_the_source() {
    let mut source = Source::of(vec![Answer::Bytes(vec![0, 1, 0]), Answer::Broken]);
    let mut reader = AsyncReader::new();
    reader.async_read_round(&mut source);
    assert!(reader.done());
    match reader.finish() {
        Err(error) => assert_eq!(error.kind(), ErrorKind::Other),
        Ok(_) => panic!("the source failed"),
    }
}

#[test]
fn a_fresh_reader_is_not_done() {
    assert!(!AsyncReader::new().done());
}

#[test]
fn reader_advance_with_zero_bytes_closes() {
    let mut reader = AsyncReader::new();
    reader.advance(AsyncResult::Success(Async::Ready(0)), 2);
    assert!(reader.done());
    assert!(matches!(reader.finish(), Ok(AsyncReadResult::Closed)));
}

#[test]
fn reader_advance_through_a_header_of_zeros_is_an_empty_message() {
    let mut reader = AsyncReader::new();
    reader.advance(AsyncResult::Success(Async::Ready(2)), 2);
    assert!(!reader.done());
    reader.advance(AsyncResult::Success(Async::Ready(4)), 4);
    assert!(reader.done());
    match reader.finish() {
        Ok(AsyncReadResult::Ready(message)) => {
            assert_eq!(message.message_type(), 0);
            assert_eq!(message.length(), 0);
        },
        _ => panic!("six bytes of zero are the frame of an empty message"),
    }
}

#[test]
fn reader_advance_with_an_error_fails() {
    let mut reader = AsyncReader::new();
    reader.advance(AsyncResult::Failure(Error::new(ErrorKind::ConnectionReset, "reset")), 2);
    assert!(reader.done());
    match reader.finish() {
        Err(error) => assert_eq!(error.kind(), ErrorKind::ConnectionReset),
        Ok(_) => panic!("the error must come out"),
    }
}

#[test]
fn from_reader_reads_a_whole_message() {
    let mut source = Source::pieces(&frame_of(77, &[1, 2, 3]), 2);
    match Message::from_reader(&mut source) {
        Ok(AsyncReadResult::Ready(message)) => {
            assert_eq!(message.message_type(), 77);
            assert_eq!(message.data(), &[1, 2, 3]);
        },
        _ => panic!("the whole frame was there"),
    }
}

#[test]
fn from_reader_gives_the_reader_back_when_the_source_runs_dry() {
    let frame = frame_of(77, &[1, 2, 3]);
    let mut source = Source::of(vec![Answer::Bytes(frame[..4].to_vec()), Answer::Dry, Answer::Bytes(frame[4..].to_vec())]);
    let mut reader = match Message::from_reader(&mut source) {
        Ok(AsyncReadResult::NotReady(rest)) => rest,
        _ => panic!("the source ran dry"),
    };
    reader.async_read_round(&mut source);
    match reader.finish() {
        Ok(AsyncReadResult::Ready(message)) => assert_eq!(message.data(), &[1, 2, 3]),
        _ => panic!("the rest was there"),
    }
}

#[test]
fn into_writer_writes_a_whole_message() {
    let mut sink = Sink::of(vec![Room::Take(1)]);
    let result = Message::new(77, 3, vec![1, 2, 3]).into_writer(&mut sink);
    assert!(matches!(result, Ok(AsyncWriteResult::Ready)));
    assert_eq!(sink.get_ref().taken, frame_of(77, &[1, 2, 3]));
}

#[test]
fn into_writer_gives_the_writer_back_when_the_sink_is_full() {
    let mut sink = Sink::of(vec![Room::Take(2), Room::Take(3), Room::Full]);
    let mut writer = match Message::new(77, 3, vec![1, 2, 3]).into_writer(&mut sink) {
        Ok(AsyncWriteResult::NotReady(rest)) => rest,
        _ => panic!("the sink was full"),
    };
    assert_eq!(sink.get_ref().taken, vec![0, 77, 0, 0, 0]);
    writer.async_write_round(&mut sink);
    assert!(matches!(writer.finish(), Ok(AsyncWriteResult::Ready)));
    assert_eq!(sink.get_ref().taken, frame_of(77, &[1, 2, 3]));
}

#[test]
fn classify_a_count_is_ready() {
    assert!(matches!(classify(Ok(0)), AsyncResult::Success(Async::Ready(0))));
    assert!(matches!(classify(Ok(17)), AsyncResult::Success(Async::Ready(17))));
}

#[test]
fn classify_would_block_is_not_ready() {
    let outcome = classify(Err(Error::new(ErrorKind::WouldBlock, "later")));
    assert!(matches!(outcome, AsyncResult::Success(Async::NotReady)));
}

#[test]
fn classify_interrupted_is_not_ready() {
    let outcome = classify(Err(Error::new(ErrorKind::Interrupted, "signal")));
    assert!(matches!(outcome, AsyncResult::Success(Async::NotReady)));
}

#[test]
fn classify_any_other_error_is_a_failure() {
    match classify(Err(Error::new(ErrorKind::ConnectionReset, "reset"))) {
        AsyncResult::Failure(error) => assert_eq!(error.kind(), ErrorKind::ConnectionReset),
        _ => panic!("a reset is a hard error"),
    }
    match classify(Err(Error::new(ErrorKind::UnexpectedEof, "eof"))) {
        AsyncResult::Failure(error) => assert_eq!(error.kind(), ErrorKind::UnexpectedEof),
        _ => panic!("an unexpected end is a hard error"),
    }
}

#[test]
fn reader_advance_takes_fewer_bytes_than_were_offered() {
    let mut reader = AsyncReader::new();
    reader.advance(AsyncResult::Success(Async::Ready(1)), 2);
    assert!(!reader.done());
    reader.advance(AsyncResult::Success(Async::Ready(1)), 1);
    assert!(!reader.done());
    reader.advance(AsyncResult::Success(Async::Ready(3)), 4);
    assert!(!reader.done());
    reader.advance(AsyncResult::Success(Async::NotReady), 1);
    assert!(reader.done());
    assert!(matches!(reader.finish(), Ok(AsyncReadResult::NotReady(_))));
}

#[test]
fn the_source_is_offered_what_the_field_under_way_still_takes() {
    let mut source = Source::of(vec![
        Answer::Bytes(vec![0]),
        Answer::Bytes(vec![9, 0]),
        Answer::Bytes(vec![0, 0, 3, 1]),
        Answer::Bytes(vec![2, 3]),
    ]);
    let mut reader = AsyncReader::new();
    let mut offered = Vec::new();
    while !reader.done() {
        let before = source.get_ref().largest_buffer;
        reader.async_read(&mut source);
        offered.push((before, source.get_ref().largest_buffer));
    }
    assert_eq!(source.get_ref().attempts, 6);
    assert_eq!(source.get_ref().largest_buffer, 4);
    assert_eq!(offered[0], (0, 2));
    assert!(matches!(reader.finish(), Ok(AsyncReadResult::Ready(_))));
}

#[test]
fn after_error_would_block_and_interrupted_mean_try_again() {
    let later = after_error(Error::new(ErrorKind::Other, "x"), ErrorClass::WouldBlock);
    assert!(matches!(later, AsyncResult::Success(Async::NotReady)));
    let again = after_error(Error::new(ErrorKind::Other, "x"), ErrorClass::Interrupted);
    assert!(matches!(again, AsyncResult::Success(Async::NotReady)));
}

#[test]
fn after_error_any_other_class_hands_the_error_on() {
    match after_error(Error::new(ErrorKind::TimedOut, "late"), ErrorClass::Other) {
        AsyncResult::Failure(error) => assert_eq!(error.kind(), ErrorKind::TimedOut),
        _ => panic!("the error must come out"),
    }
}

#[test]
fn a_recorded_stream_passes_every_answer_on() {
    let mut source = Source::of(vec![Answer::Bytes(vec![5, 6]), Answer::Dry, Answer::End, Answer::Broken]);
    let mut buf = [0u8; 4];
    assert!(matches!(source.read(&mut buf), AsyncResult::Success(Async::Ready(2))));
    assert_eq!(buf, [5, 6, 0, 0]);
    assert!(matches!(source.read(&mut buf), AsyncResult::Success(Async::NotReady)));
    assert!(matches!(source.read(&mut buf), AsyncResult::Success(Async::Ready(0))));
    assert!(matches!(source.read(&mut buf), AsyncResult::Failure(_)));
    let mut sink = Sink::of(vec![Room::Take(1), Room::Full, Room::Nothing, Room::Broken]);
    assert!(matches!(sink.write(&[7, 8]), AsyncResult::Success(Async::Ready(1))));
    assert!(matches!(sink.write(&[8]), AsyncResult::Success(Async::NotReady)));
    assert!(matches!(sink.write(&[8]), AsyncResult::Success(Async::Ready(0))));
    assert!(matches!(sink.write(&[8]), AsyncResult::Failure(_)));
    assert_eq!(sink.into_inner().taken, vec![7]);
}

#[test]
fn get_storage_is_the_room_that_the_field_under_way_still_has() {
    let mut reader = AsyncReader::new();
    assert_eq!(reader.get_storage().len(), 2);
    reader.get_storage()[0] = 0x01;
    reader.advance(AsyncResult::Success(Async::Ready(1)), 2);
    assert_eq!(reader.get_storage().len(), 1);
    reader.get_storage()[0] = 0x02;
    reader.advance(AsyncResult::Success(Async::Ready(1)), 1);
    assert_eq!(reader.get_storage().len(), 4);
    reader.get_storage().copy_from_slice(&[0, 0, 0, 3]);
    reader.advance(AsyncResult::Success(Async::Ready(4)), 4);
    assert_eq!(reader.get_storage().len(), 3);
    reader.get_storage()[..2].copy_from_slice(&[7, 8]);
    reader.advance(AsyncResult::Success(Async::Ready(2)), 3);
    assert_eq!(reader.get_storage().len(), 1);
    reader.get_storage()[0] = 9;
    reader.advance(AsyncResult::Success(Async::Ready(1)), 1);
    assert!(reader.done());
    match reader.finish() {
        Ok(AsyncReadResult::Ready(message)) => {
            assert_eq!(message.message_type(), 0x0102);
            assert_eq!(message.data(), &[7, 8, 9]);
        },
        _ => panic!("the frame is whole"),
    }
}

#[test]
fn the_sink_is_never_offered_an_empty_chunk() {
    let mut sink = Sink::of(vec![Room::Take(1), Room::Take(1), Room::Take(1)]);
    let mut writer = AsyncWriter::new(Message::new(5, 0, Vec::new()));
    writer.async_write_round(&mut sink);
    assert!(matches!(writer.finish(), Ok(AsyncWriteResult::Ready)));
    assert!(sink.get_ref().offered.iter().all(|chunk| !chunk.is_empty()));
    assert_eq!(sink.get_ref().offered.len(), 4);
    assert_eq!(sink.get_ref().offered[3], vec![0, 0, 0]);
}

#[test]
fn a_round_of_reading_ends_at_the_first_attempt_without_a_byte() {
    let mut source = Source::of(vec![Answer::Bytes(vec![0]), Answer::Dry, Answer::Bytes(vec![1])]);
    let mut reader = AsyncReader::new();
    reader.async_read_round(&mut source);
    assert!(reader.done());
    assert_eq!(source.get_ref().attempts, 2);
}

#[test]
fn a_round_of_writing_ends_at_the_first_attempt_without_a_byte() {
    let mut sink = Sink::of(vec![Room::Take(2), Room::Full, Room::Take(4)]);
    let mut writer = AsyncWriter::new(Message::new(5, 0, Vec::new()));
    writer.async_write_round(&mut sink);
    assert!(writer.done());
    assert_eq!(sink.get_ref().offered.len(), 2);
}

#[test]
fn from_reader_hands_on_the_error_that_the_source_gave() {
    let mut source = Source::of(vec![Answer::Bytes(vec![0, 1, 0]), Answer::Broken, Answer::Bytes(vec![0])]);
    match Message::from_reader(&mut source) {
        Err(error) => assert_eq!(error.kind(), ErrorKind::Other),
        Ok(_) => panic!("the source failed"),
    }
    assert_eq!(source.get_ref().attempts, 3);
}

#[test]
fn into_writer_hands_on_the_error_that_the_sink_gave() {
    let mut sink = Sink::of(vec![Room::Take(2), Room::Broken]);
    match Message::new(1, 1, vec![1]).into_writer(&mut sink) {
        Err(error) => assert_eq!(error.kind(), ErrorKind::BrokenPipe),
        Ok(_) => panic!("the sink failed"),
    }
    assert_eq!(sink.get_ref().taken, vec![0, 1]);
    assert_eq!(sink.get_ref().offered.len(), 2);
}
