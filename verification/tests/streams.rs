use elastic_parser::decode::{decode_char, incomplete_len, previous_char};
use elastic_parser::elastic_buffer::{ElasticBufferStreamer, CHUNK_SIZE};
use elastic_parser::{Source, StreamError, Streamer, StreamerRange};
use std::io::ErrorKind;

/// What a scripted source does when it is asked.
enum Answer {
    Bytes(&'static [u8]),
    Fail(ErrorKind),
}

/// A source which answers as it is told, and then reports its end.
struct Script(Vec<Answer>);

impl Script {
    fn new(mut answers: Vec<Answer>) -> Script {
        answers.reverse();
        Script(answers)
    }
}

impl Source for Script {
    fn read(&mut self, buf: &mut [u8]) -> Result<usize, ErrorKind> {
        match self.0.pop() {
            Some(Answer::Bytes(bytes)) => {
                assert!(bytes.len() <= buf.len());
                buf[..bytes.len()].copy_from_slice(bytes);
                Ok(bytes.len())
            }
            Some(Answer::Fail(kind)) => Err(kind),
            None => Ok(0),
        }
    }
}

/// A source which delivers one byte at a time.
struct Trickle(Vec<u8>);

impl Trickle {
    fn new(text: &str) -> Trickle {
        let mut bytes = text.as_bytes().to_vec();
        bytes.reverse();
        Trickle(bytes)
    }
}

impl Source for Trickle {
    fn read(&mut self, buf: &mut [u8]) -> Result<usize, ErrorKind> {
        match self.0.pop() {
            Some(byte) => {
                buf[0] = byte;
                Ok(1)
            }
            None => Ok(0),
        }
    }
}

fn read_all<S: Streamer>(stream: &mut S) -> (String, StreamError) {
    let mut chars = String::new();
    loop {
        match stream.next() {
            Ok(c) => chars.push(c),
            Err(error) => return (chars, error),
        }
    }
}

#[test]
fn a_stream_gives_the_text_of_its_source() {
    let text = "a\u{e9}\u{20ac}\u{1f600}z".repeat(3000);
    let mut stream = ElasticBufferStreamer::unlimited(text.as_bytes());
    assert_eq!(read_all(&mut stream), (text.clone(), StreamError::EndOfInput));
    assert_eq!(stream.position(), text.len() as u64);
    assert_eq!(stream.next(), Err(StreamError::EndOfInput));
}

#[test]
fn characters_may_be_split_between_reads() {
    let text = "a\u{e9}\u{20ac}\u{1f600}b\u{1f601}\u{20ac}\u{e9}";
    let mut stream = ElasticBufferStreamer::unlimited(Trickle::new(text));
    assert_eq!(read_all(&mut stream), (text.to_string(), StreamError::EndOfInput));
    assert_eq!(stream.position(), text.len() as u64);
}

#[test]
fn the_beginning_of_a_character_is_used_once() {
    let mut stream = ElasticBufferStreamer::unlimited(Script::new(vec![
        Answer::Bytes(b"x\xe2\x82"),
        Answer::Bytes(b"\xacyz"),
        Answer::Bytes(b"w"),
    ]));
    assert_eq!(
        read_all(&mut stream),
        ("x\u{20ac}yzw".to_string(), StreamError::EndOfInput)
    );
}

#[test]
fn an_incomplete_character_at_the_end_is_left_out() {
    let mut stream = ElasticBufferStreamer::unlimited(&b"ab\xe2\x82"[..]);
    assert_eq!(read_all(&mut stream), ("ab".to_string(), StreamError::EndOfInput));
    assert_eq!(stream.position(), 2);
}

#[test]
fn bytes_that_are_not_utf8_stop_the_stream() {
    let mut stream = ElasticBufferStreamer::unlimited(&b"\xffabc"[..]);
    assert_eq!(stream.next(), Err(StreamError::Utf8Error));
    assert_eq!(stream.position(), 0);
    assert_eq!(stream.next(), Err(StreamError::Utf8Error));
}

#[test]
fn malformed_bytes_after_a_chunk_stop_the_stream_there() {
    let mut stream = ElasticBufferStreamer::unlimited(Script::new(vec![
        Answer::Bytes(b"ab"),
        Answer::Bytes(b"\xff\xff\xff\xff"),
    ]));
    assert_eq!(read_all(&mut stream), ("ab".to_string(), StreamError::Utf8Error));
    assert_eq!(stream.position(), 2);
}

#[test]
fn a_failing_source_can_be_asked_again() {
    let mut stream = ElasticBufferStreamer::unlimited(Script::new(vec![
        Answer::Bytes(b"a"),
        Answer::Fail(ErrorKind::TimedOut),
        Answer::Bytes(b"b"),
    ]));
    assert_eq!(stream.next(), Ok('a'));
    assert_eq!(stream.next(), Err(StreamError::InputError(ErrorKind::TimedOut)));
    assert_eq!(stream.position(), 1);
    assert_eq!(stream.next(), Ok('b'));
    assert_eq!(stream.next(), Err(StreamError::EndOfInput));
}

#[test]
fn an_interrupted_source_is_asked_again_at_once() {
    let mut stream = ElasticBufferStreamer::unlimited(Script::new(vec![
        Answer::Fail(ErrorKind::Interrupted),
        Answer::Fail(ErrorKind::Interrupted),
        Answer::Bytes(b"a"),
        Answer::Fail(ErrorKind::Interrupted),
    ]));
    assert_eq!(read_all(&mut stream), ("a".to_string(), StreamError::EndOfInput));
}

#[test]
fn an_unexpected_end_of_the_source_is_the_end() {
    let mut stream = ElasticBufferStreamer::unlimited(Script::new(vec![
        Answer::Bytes(b"a"),
        Answer::Fail(ErrorKind::UnexpectedEof),
    ]));
    assert_eq!(read_all(&mut stream), ("a".to_string(), StreamError::EndOfInput));
}

#[test]
fn a_full_buffer_stops_the_stream_until_there_is_room() {
    let text = "x".repeat(2 * CHUNK_SIZE);
    let mut stream = ElasticBufferStreamer::with_max_size(text.as_bytes(), CHUNK_SIZE + 1);
    let checkpoint = stream.checkpoint();
    for _ in 0..CHUNK_SIZE {
        assert_eq!(stream.next(), Ok('x'));
    }
    assert_eq!(stream.next(), Err(StreamError::BufferFull));
    assert_eq!(stream.buffer_len(), CHUNK_SIZE);
    stream.release(checkpoint);
    assert_eq!(stream.next(), Ok('x'));
    assert_eq!(stream.buffer_len(), CHUNK_SIZE + 1);
    let (rest, error) = read_all(&mut stream);
    assert_eq!(rest.len(), CHUNK_SIZE - 1);
    assert_eq!(error, StreamError::EndOfInput);
}

#[test]
fn a_buffer_that_is_too_small_for_a_chunk_is_always_full() {
    let mut stream = ElasticBufferStreamer::with_max_size(&b"abc"[..], CHUNK_SIZE - 1);
    assert_eq!(stream.next(), Err(StreamError::BufferFull));
    assert_eq!(stream.buffer_len(), 0);
    let mut stream = ElasticBufferStreamer::with_max_size(&b"abc"[..], CHUNK_SIZE);
    assert_eq!(stream.next(), Ok('a'));
}

#[test]
fn before_undoes_next() {
    let mut stream = ElasticBufferStreamer::unlimited("\u{20ac}b".as_bytes());
    assert!(!stream.can_go_back());
    assert_eq!(stream.next(), Ok('\u{20ac}'));
    assert_eq!(stream.position(), 3);
    assert!(stream.can_go_back());
    stream.before();
    assert!(!stream.can_go_back());
    assert_eq!(stream.position(), 0);
    assert_eq!(stream.next(), Ok('\u{20ac}'));
    assert_eq!(stream.next(), Ok('b'));
    stream.before();
    assert_eq!(stream.position(), 3);
}

#[test]
fn before_works_across_chunks() {
    let text = "ab".repeat(CHUNK_SIZE);
    let mut stream = ElasticBufferStreamer::unlimited(text.as_bytes());
    for _ in 0..CHUNK_SIZE + 1 {
        assert!(stream.next().is_ok());
    }
    stream.before();
    assert_eq!(stream.position(), CHUNK_SIZE as u64);
    assert_eq!(stream.next(), Ok('a'));
}

#[test]
fn checkpoints_can_be_duplicated() {
    let mut stream = ElasticBufferStreamer::unlimited(&b"abc"[..]);
    assert_eq!(stream.next(), Ok('a'));
    let first = stream.checkpoint();
    let second = stream.duplicate(&first);
    assert_eq!(stream.next(), Ok('b'));
    stream.reset(first);
    assert_eq!(stream.next(), Ok('b'));
    assert_eq!(stream.next(), Ok('c'));
    let third = stream.checkpoint();
    assert!(second.precedes(&third));
    assert!(!third.precedes(&second));
    stream.release(third);
    stream.reset(second);
    assert_eq!(stream.position(), 1);
    assert_eq!(stream.next(), Ok('b'));
}

#[test]
fn the_earliest_checkpoint_keeps_the_text() {
    let text = "0123456789".repeat(CHUNK_SIZE);
    let mut stream = ElasticBufferStreamer::unlimited(text.as_bytes());
    for _ in 0..10 {
        assert!(stream.next().is_ok());
    }
    let early = stream.checkpoint();
    for _ in 0..CHUNK_SIZE {
        assert!(stream.next().is_ok());
    }
    let late = stream.checkpoint();
    for _ in 0..CHUNK_SIZE {
        assert!(stream.next().is_ok());
    }
    assert_eq!(stream.buffer_len(), 3 * CHUNK_SIZE - 10);
    stream.reset(late);
    assert_eq!(stream.position(), (CHUNK_SIZE + 10) as u64);
    stream.reset(early);
    assert_eq!(stream.position(), 10);
    assert_eq!(stream.next(), Ok('0'));
}

#[test]
fn ranges_stay_readable_while_the_stream_goes_on() {
    let text = "0123456789".repeat(CHUNK_SIZE);
    let mut stream = ElasticBufferStreamer::unlimited(text.as_bytes());
    assert_eq!(stream.next(), Ok('0'));
    let from = stream.checkpoint();
    for _ in 0..4 {
        assert!(stream.next().is_ok());
    }
    let range = stream.range_from_checkpoint(from);
    for _ in 0..2 * CHUNK_SIZE {
        assert!(stream.next().is_ok());
    }
    assert_eq!(range.to_ref(&mut stream), &b"1234"[..]);
}

#[test]
fn ranges_lie_between_two_checkpoints() {
    let mut stream = ElasticBufferStreamer::unlimited(&b"abcdef"[..]);
    assert_eq!(stream.next(), Ok('a'));
    let from = stream.checkpoint();
    assert_eq!(stream.next(), Ok('b'));
    assert_eq!(stream.next(), Ok('c'));
    let to = stream.checkpoint();
    assert_eq!(stream.next(), Ok('d'));
    let range = stream.range_from_to_checkpoint(from, to);
    assert_eq!(range.to_ref(&mut stream), &b"bc"[..]);
    assert_eq!(stream.position(), 4);
}

#[test]
fn a_range_that_is_given_back_is_forgotten() {
    let text = "x".repeat(4 * CHUNK_SIZE);
    let mut stream = ElasticBufferStreamer::unlimited(text.as_bytes());
    let from = stream.checkpoint();
    assert!(stream.next().is_ok());
    let range = stream.range_from_checkpoint(from);
    for _ in 0..CHUNK_SIZE {
        assert!(stream.next().is_ok());
    }
    assert_eq!(stream.buffer_len(), 2 * CHUNK_SIZE);
    stream.release_range(range);
    for _ in 0..CHUNK_SIZE {
        assert!(stream.next().is_ok());
    }
    assert_eq!(stream.buffer_len(), CHUNK_SIZE + 1);
}

#[test]
fn slices_are_read_from_their_beginning() {
    let mut source = &b"abcde"[..];
    let mut buffer = [0u8; 3];
    assert_eq!(Source::read(&mut source, &mut buffer), Ok(3));
    assert_eq!(&buffer, b"abc");
    assert_eq!(Source::read(&mut source, &mut buffer), Ok(2));
    assert_eq!(&buffer, b"dec");
    assert_eq!(Source::read(&mut source, &mut buffer), Ok(0));
}

#[test]
fn characters_are_decoded_where_they_begin() {
    let bytes = "a\u{e9}\u{20ac}\u{1f600}".as_bytes();
    assert_eq!(decode_char(bytes, 0), ('a', 1));
    assert_eq!(decode_char(bytes, 1), ('\u{e9}', 2));
    assert_eq!(decode_char(bytes, 3), ('\u{20ac}', 3));
    assert_eq!(decode_char(bytes, 6), ('\u{1f600}', 4));
}

#[test]
fn the_character_before_is_found() {
    let bytes = "a\u{e9}\u{20ac}\u{1f600}".as_bytes();
    assert_eq!(previous_char(bytes, 1), 0);
    assert_eq!(previous_char(bytes, 3), 1);
    assert_eq!(previous_char(bytes, 6), 3);
    assert_eq!(previous_char(bytes, 10), 6);
}

#[test]
fn incomplete_characters_are_measured() {
    assert_eq!(incomplete_len(b""), Some(0));
    assert_eq!(incomplete_len(b"abc"), Some(0));
    assert_eq!(incomplete_len(b"a\xe2"), Some(1));
    assert_eq!(incomplete_len(b"a\xe2\x82"), Some(2));
    assert_eq!(incomplete_len(b"a\xf0\x9f\x98"), Some(3));
    assert_eq!(incomplete_len(b"\xffabc"), None);
}

#[test]
fn before_goes_one_character_before_a_checkpoint() {
    let mut stream = ElasticBufferStreamer::unlimited(&b"This"[..]);
    assert_eq!(stream.next(), Ok('T'));
    let checkpoint = stream.checkpoint();
    assert_eq!(stream.next(), Ok('h'));
    assert_eq!(stream.next(), Ok('i'));
    stream.reset(checkpoint);
    assert_eq!(stream.position(), 1);
    assert!(stream.can_go_back());
    stream.before();
    assert_eq!(stream.position(), 0);
    assert_eq!(stream.next(), Ok('T'));
}

#[test]
fn nothing_is_before_a_checkpoint_at_the_beginning() {
    let mut stream = ElasticBufferStreamer::unlimited("\u{20ac}b".as_bytes());
    let beginning = stream.checkpoint();
    assert_eq!(stream.next(), Ok('\u{20ac}'));
    let second = stream.checkpoint();
    assert_eq!(stream.next(), Ok('b'));
    stream.reset(second);
    stream.before();
    assert_eq!(stream.position(), 0);
    stream.reset(beginning);
    assert!(!stream.can_go_back());
}

#[test]
fn a_stream_can_go_back_after_malformed_bytes() {
    let mut stream = ElasticBufferStreamer::unlimited(Script::new(vec![
        Answer::Bytes(b"ab"),
        Answer::Bytes(b"\xff\xff\xff\xff"),
        Answer::Bytes(b"c"),
    ]));
    let checkpoint = stream.checkpoint();
    assert_eq!(stream.next(), Ok('a'));
    let from = stream.checkpoint();
    assert_eq!(stream.next(), Ok('b'));
    let range = stream.range_from_checkpoint(from);
    assert_eq!(stream.next(), Err(StreamError::Utf8Error));
    assert_eq!(stream.next(), Err(StreamError::Utf8Error));
    assert_eq!(stream.buffer_len(), 2);
    assert_eq!(range.to_ref(&mut stream), &b"b"[..]);
    stream.reset(checkpoint);
    assert_eq!(stream.position(), 0);
    assert_eq!(stream.next(), Ok('a'));
    assert_eq!(stream.next(), Ok('b'));
    assert_eq!(stream.next(), Err(StreamError::Utf8Error));
}

#[test]
fn the_characters_of_a_sound_chunk_come_before_malformed_bytes() {
    let mut bytes = vec![b'a'; CHUNK_SIZE];
    bytes.extend_from_slice(b"bc\xff\xff\xff\xff");
    let mut stream = ElasticBufferStreamer::unlimited(&bytes[..]);
    let (text, error) = read_all(&mut stream);
    assert_eq!(text, "a".repeat(CHUNK_SIZE));
    assert_eq!(error, StreamError::Utf8Error);
}

#[test]
fn the_source_is_not_asked_after_its_end() {
    let mut stream = ElasticBufferStreamer::unlimited(Script::new(vec![
        Answer::Bytes(b"a"),
        Answer::Bytes(b""),
        Answer::Bytes(b"b"),
    ]));
    let checkpoint = stream.checkpoint();
    assert_eq!(stream.next(), Ok('a'));
    assert_eq!(stream.next(), Err(StreamError::EndOfInput));
    assert_eq!(stream.next(), Err(StreamError::EndOfInput));
    stream.reset(checkpoint);
    assert_eq!(stream.next(), Ok('a'));
    assert_eq!(stream.next(), Err(StreamError::EndOfInput));
}

#[test]
fn an_unexpected_end_is_not_remembered() {
    let mut stream = ElasticBufferStreamer::unlimited(Script::new(vec![
        Answer::Fail(ErrorKind::UnexpectedEof),
        Answer::Bytes(b"a"),
    ]));
    assert_eq!(stream.next(), Err(StreamError::EndOfInput));
    assert_eq!(stream.next(), Ok('a'));
}

#[test]
fn a_failure_loses_no_byte_of_a_character() {
    let mut stream = ElasticBufferStreamer::unlimited(Script::new(vec![
        Answer::Bytes(b"ab\xe5\xbf"),
        Answer::Fail(ErrorKind::TimedOut),
        Answer::Bytes(b"\xb5c\xe5"),
    ]));
    assert_eq!(stream.next(), Ok('a'));
    assert_eq!(stream.buffer_len(), 2);
    assert_eq!(stream.next(), Ok('b'));
    assert_eq!(stream.next(), Err(StreamError::InputError(ErrorKind::TimedOut)));
    assert_eq!(stream.next(), Ok('\u{5ff5}'));
    assert_eq!(stream.buffer_len(), 5);
    assert_eq!(stream.next(), Ok('c'));
    assert_eq!(stream.next(), Err(StreamError::EndOfInput));
}

#[test]
fn a_buffer_fills_up_to_its_maximum_size() {
    let text = "a".repeat(3 * CHUNK_SIZE);
    let mut stream = ElasticBufferStreamer::with_max_size(text.as_bytes(), 2 * CHUNK_SIZE);
    let checkpoint = stream.checkpoint();
    for _ in 0..2 * CHUNK_SIZE {
        assert_eq!(stream.next(), Ok('a'));
    }
    assert_eq!(stream.buffer_len(), 2 * CHUNK_SIZE);
    assert_eq!(stream.next(), Err(StreamError::BufferFull));
    assert_eq!(stream.position(), 2 * CHUNK_SIZE as u64);
    stream.release(checkpoint);
    assert_eq!(stream.next(), Ok('a'));
    assert_eq!(stream.position(), 2 * CHUNK_SIZE as u64 + 1);
}

/// A source which records how many bytes it is asked for.
struct Recorder<'a> {
    bytes: &'a [u8],
    requests: &'a std::cell::RefCell<Vec<usize>>,
}

impl<'a> Source for Recorder<'a> {
    fn read(&mut self, buf: &mut [u8]) -> Result<usize, ErrorKind> {
        self.requests.borrow_mut().push(buf.len());
        Source::read(&mut self.bytes, buf)
    }
}

#[test]
fn a_buffer_never_exceeds_its_maximum_size() {
    let text = "\u{20ac}".repeat(CHUNK_SIZE);
    let requests = std::cell::RefCell::new(Vec::new());
    let source = Recorder {
        bytes: text.as_bytes(),
        requests: &requests,
    };
    let max_size = 2 * CHUNK_SIZE - 2;
    let mut stream = ElasticBufferStreamer::with_max_size(source, max_size);
    let checkpoint = stream.checkpoint();
    loop {
        let r = stream.next();
        assert!(stream.buffer_len() <= max_size);
        if r.is_err() {
            assert_eq!(r, Err(StreamError::BufferFull));
            break;
        }
    }
    assert_eq!(*requests.borrow(), vec![CHUNK_SIZE, CHUNK_SIZE - 2]);
    stream.reset(checkpoint);
    let (rest, error) = read_all(&mut stream);
    assert_eq!(rest, text);
    assert_eq!(error, StreamError::EndOfInput);
}

#[test]
fn a_full_buffer_stays_full() {
    let text = "x".repeat(2 * CHUNK_SIZE);
    let mut stream = ElasticBufferStreamer::with_max_size(text.as_bytes(), CHUNK_SIZE + 1);
    let first = stream.checkpoint();
    for _ in 0..CHUNK_SIZE {
        assert_eq!(stream.next(), Ok('x'));
    }
    let second = stream.checkpoint();
    assert_eq!(stream.next(), Err(StreamError::BufferFull));
    assert_eq!(stream.next(), Err(StreamError::BufferFull));
    stream.release(first);
    assert_eq!(stream.next(), Ok('x'));
    stream.before();
    assert_eq!(stream.position(), CHUNK_SIZE as u64);
    stream.release(second);
}
