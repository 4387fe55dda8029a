use elastic_parser::elastic_buffer::{ElasticBufferStreamer, CHUNK_SIZE};
use elastic_parser::parsers::basic::{
    alpha_num, char, char_predicate, chars, digit, eof, letter, none_of, one_of, space,
};
use elastic_parser::{
    attempt, choice, many, many_max, maybe, Parser, ParserError, ParserErrorKind, ParserExt,
    Source, Streamer, StreamerRange,
};
use std::io::ErrorKind;

fn stream(text: &str) -> ElasticBufferStreamer<&[u8]> {
    ElasticBufferStreamer::unlimited(text.as_bytes())
}

fn unexpected(at: u64) -> ParserError {
    ParserError::Lazy(at, ParserErrorKind::Unexpected)
}

fn unexpected_end(at: u64) -> ParserError {
    ParserError::Lazy(at, ParserErrorKind::UnexpectedEndOfInput)
}

#[test]
fn a_character_is_taken_or_left() {
    let mut s = stream("\u{20ac}b");
    assert_eq!(char('b').get(&mut s), Err(unexpected(3)));
    assert_eq!(s.position(), 0);
    assert_eq!(char('\u{20ac}').get(&mut s), Ok('\u{20ac}'));
    assert_eq!(s.position(), 3);
    assert_eq!(char('b').parse(&mut s), Ok(()));
    assert_eq!(char('b').get(&mut s), Err(unexpected_end(4)));
    assert_eq!(s.position(), 4);
}

#[test]
fn classes_of_characters_differ() {
    assert_eq!(letter().get(&mut stream("\u{e9}")), Ok('\u{e9}'));
    assert_eq!(letter().get(&mut stream("3")), Err(unexpected(1)));
    assert_eq!(alpha_num().get(&mut stream("3")), Ok('3'));
    assert_eq!(alpha_num().get(&mut stream("\u{663}")), Ok('\u{663}'));
    assert_eq!(alpha_num().get(&mut stream("-")), Err(unexpected(1)));
    assert_eq!(digit().get(&mut stream("0")), Ok('0'));
    assert_eq!(digit().get(&mut stream("9")), Ok('9'));
    assert_eq!(digit().get(&mut stream("/")), Err(unexpected(1)));
    assert_eq!(digit().get(&mut stream(":")), Err(unexpected(1)));
    assert_eq!(digit().get(&mut stream("\u{663}")), Err(unexpected(2)));
}

#[test]
fn white_space_is_that_of_ascii() {
    for text in [" ", "\t", "\n", "\u{c}", "\r"] {
        assert!(space().parse(&mut stream(text)).is_ok());
    }
    assert_eq!(space().parse(&mut stream("\u{b}")), Err(unexpected(1)));
    assert_eq!(space().parse(&mut stream("\u{a0}")), Err(unexpected(2)));
}

#[test]
fn one_of_and_none_of_exclude_each_other() {
    for text in ["a", "b", "c"] {
        let one = one_of(vec!['a', 'c']).parse(&mut stream(text)).is_ok();
        let none = none_of(vec!['a', 'c']).parse(&mut stream(text)).is_ok();
        assert_ne!(one, none);
    }
    assert_eq!(one_of(vec![]).get(&mut stream("a")), Err(unexpected(1)));
    assert_eq!(none_of(vec![]).get(&mut stream("a")), Ok('a'));
    assert_eq!(none_of(vec![]).get(&mut stream("")), Err(unexpected_end(0)));
}

#[test]
fn predicates_may_keep_a_state() {
    let mut seen = 0;
    let mut parser = char_predicate(move |_| {
        seen += 1;
        seen < 3
    });
    let mut s = stream("aaaa");
    assert_eq!(parser.get(&mut s), Ok('a'));
    assert_eq!(parser.get(&mut s), Ok('a'));
    assert_eq!(parser.get(&mut s), Err(unexpected(3)));
    assert_eq!(s.position(), 2);
}

#[test]
fn the_end_is_only_at_the_end() {
    let mut s = stream("a");
    assert_eq!(eof().get(&mut s), Err(unexpected(0)));
    assert_eq!(s.position(), 0);
    s.next().unwrap();
    assert_eq!(eof().get(&mut s), Ok(()));
    assert_eq!(eof().parse(&mut s), Ok(()));
}

#[test]
fn stream_errors_become_parser_errors() {
    let mut s = ElasticBufferStreamer::with_max_size(&b"abc"[..], 10);
    let full = || ParserError::Lazy(0, ParserErrorKind::BufferFull);
    assert_eq!(letter().get(&mut s), Err(full()));
    assert_eq!(eof().parse(&mut s), Err(full()));
    assert_eq!(many(letter()).get(&mut s), Err(full()));
    assert_eq!(maybe(letter()).get(&mut s), Err(full()));
    assert_eq!(attempt(letter()).get(&mut s), Err(full()));
    assert_eq!(choice((letter(), digit())).get(&mut s), Err(full()));
    let mut s = ElasticBufferStreamer::unlimited(&b"\xff\xff\xff\xff"[..]);
    assert_eq!(
        letter().get(&mut s),
        Err(ParserError::Lazy(0, ParserErrorKind::Utf8Error))
    );
}

#[test]
fn a_word_is_found_or_followed_as_far_as_it_goes() {
    let mut s = stream("t\u{e9}l\u{e9}phone");
    assert_eq!(chars("t\u{e9}l\u{e8}").parse(&mut s), Err(unexpected(6)));
    assert_eq!(s.position(), 4);
    let mut s = stream("t\u{e9}l\u{e9}phone");
    assert_eq!(chars("t\u{e9}l\u{e9}").parse(&mut s), Ok(()));
    assert_eq!(s.position(), 6);
    let range = chars("phone").get(&mut s).unwrap();
    assert_eq!(range.to_ref(&mut s), &b"phone"[..]);
    assert_eq!(chars("x").parse(&mut s), Err(unexpected_end(11)));
}

#[test]
fn many_takes_the_whole_run() {
    let mut s = stream("ab1 c");
    assert_eq!(many(letter()).get(&mut s), Ok(vec!['a', 'b']));
    assert_eq!(s.position(), 2);
    assert_eq!(many(letter()).get(&mut s), Ok(vec![]));
    assert_eq!(many(alpha_num()).parse(&mut s), Ok(()));
    assert_eq!(s.position(), 3);
    assert_eq!(many(none_of(vec![])).get(&mut s), Ok(vec![' ', 'c']));
    assert_eq!(many(letter()).get(&mut s), Ok(vec![]));
}

#[test]
fn many_max_fails_when_it_succeeds_too_often() {
    let mut s = stream("abc");
    assert_eq!(many_max(letter(), 4).get(&mut s), Ok(vec!['a', 'b', 'c']));
    let mut s = stream("abc");
    assert_eq!(many_max(letter(), 3).get(&mut s), Ok(vec!['a', 'b', 'c']));
    assert_eq!(s.position(), 3);
    let too_many = |at| ParserError::Lazy(at, ParserErrorKind::TooMany);
    let mut s = stream("abc");
    assert_eq!(many_max(letter(), 2).get(&mut s), Err(too_many(2)));
    assert_eq!(s.position(), 2);
    assert_eq!(many_max(letter(), 1).parse(&mut s), Ok(()));
    assert_eq!(s.position(), 3);
    assert_eq!(many_max(letter(), 0).parse(&mut s), Ok(()));
    assert_eq!(many_max(letter(), 0).parse(&mut stream("a")), Err(too_many(0)));
}

#[test]
fn many_max_takes_exactly_its_maximum() {
    let mut s = stream("This is the text !");
    assert_eq!(many_max(letter(), 4).get(&mut s), Ok(vec!['T', 'h', 'i', 's']));
    assert_eq!(s.position(), 4);
}

#[test]
fn many_fails_only_when_the_stream_does() {
    let mut s = stream("abc");
    assert_eq!(many(many_max(letter(), 0)).get(&mut s), Ok(vec![]));
    assert_eq!(many(attempt(many_max(letter(), 1))).parse(&mut s), Ok(()));
    assert_eq!(s.position(), 0);
}

#[test]
fn an_attempt_goes_back_on_a_mismatch() {
    let mut s = stream("ab1");
    let mut parser = attempt((letter(), letter(), letter()));
    assert_eq!(parser.get(&mut s), Err(unexpected(3)));
    assert_eq!(s.position(), 0);
    let mut bare = (letter(), letter(), letter());
    assert_eq!(bare.get(&mut s), Err(unexpected(3)));
    assert_eq!(s.position(), 2);
    assert_eq!(attempt((digit(), digit())).parse(&mut s), Err(unexpected_end(3)));
    assert_eq!(s.position(), 2);
    assert_eq!(attempt(digit()).get(&mut s), Ok('1'));
    assert_eq!(s.position(), 3);
}

#[test]
fn an_attempt_goes_back_when_the_stream_fails() {
    let mut s = ElasticBufferStreamer::with_max_size(&b"ab"[..], CHUNK_SIZE);
    let mut parser = attempt(many(letter()));
    assert_eq!(
        parser.parse(&mut s),
        Err(ParserError::Lazy(2, ParserErrorKind::BufferFull))
    );
    assert_eq!(s.position(), 0);
    let mut s = ElasticBufferStreamer::unlimited(&b"\xff\xff\xff\xff"[..]);
    assert_eq!(
        attempt(many(letter())).parse(&mut s),
        Err(ParserError::Lazy(0, ParserErrorKind::Utf8Error))
    );
    assert_eq!(s.position(), 0);
}

#[test]
fn attempts_can_be_repeated() {
    let mut s = stream("a1b2c");
    let mut parser = many(attempt((letter(), digit())));
    assert_eq!(parser.get(&mut s), Ok(vec![('a', '1'), ('b', '2')]));
    assert_eq!(s.position(), 4);
}

#[test]
fn maybe_gives_a_value_or_none() {
    let mut s = stream("a1");
    assert_eq!(maybe(digit()).get(&mut s), Ok(None));
    assert_eq!(s.position(), 0);
    assert_eq!(maybe(letter()).get(&mut s), Ok(Some('a')));
    assert_eq!(maybe(letter()).parse(&mut s), Ok(()));
    assert_eq!(maybe(digit()).parse(&mut s), Ok(()));
    assert_eq!(maybe(digit()).get(&mut s), Ok(None));
    assert_eq!(s.position(), 2);
}

#[test]
fn a_choice_takes_the_first_that_matches() {
    let mut s = stream("a1-");
    let mut parser = choice((digit(), letter(), alpha_num()));
    assert_eq!(parser.get(&mut s), Ok('a'));
    assert_eq!(parser.get(&mut s), Ok('1'));
    assert_eq!(parser.get(&mut s), Err(unexpected(3)));
    assert_eq!(s.position(), 2);
    let mut parser = choice((attempt(chars("-x")), attempt(chars("-"))));
    let range = parser.get(&mut s).unwrap();
    assert_eq!(range.to_ref(&mut s), &b"-"[..]);
    let mut last = choice((char('a'), char('b')));
    assert_eq!(last.parse(&mut s), Err(unexpected_end(3)));
}

#[test]
fn a_tuple_of_one_is_like_its_parser() {
    assert_eq!((letter(),).get(&mut stream("a")), Ok(('a',)));
    assert_eq!((letter(),).get(&mut stream("1")), Err(unexpected(1)));
    assert_eq!(choice((letter(),)).get(&mut stream("1")), Err(unexpected(1)));
}

#[test]
fn tuples_nest() {
    let text = "a1b";
    let mut flat = stream(text);
    let mut nested = stream(text);
    assert_eq!((letter(), digit(), letter()).get(&mut flat), Ok(('a', '1', 'b')));
    assert_eq!((letter(), (digit(), letter())).get(&mut nested), Ok(('a', ('1', 'b'))));
    assert_eq!(flat.position(), nested.position());
}

#[test]
fn tuples_can_be_long() {
    let mut s = stream("abcdefghijklmn");
    let mut parser = (
        char('a'),
        char('b'),
        char('c'),
        char('d'),
        char('e'),
        char('f'),
        char('g'),
        char('h'),
        char('i'),
        char('j'),
        char('k'),
        char('l'),
        char('m'),
        char('n'),
    );
    assert_eq!(parser.parse(&mut s), Ok(()));
    assert_eq!(s.position(), 14);
    let mut s = stream("abcdefghijklmn");
    let (a, b, c, d, e, f, g, h, i, j, k, l, m, n) = parser.get(&mut s).unwrap();
    let all: String = [a, b, c, d, e, f, g, h, i, j, k, l, m, n].iter().collect();
    assert_eq!(all, "abcdefghijklmn");
    let mut s = stream("abcdefghijklmx");
    assert_eq!(parser.parse(&mut s), Err(unexpected(14)));
    assert_eq!(s.position(), 13);
}

#[test]
fn choices_can_be_wide() {
    let mut parser = choice((
        char('a'),
        char('b'),
        char('c'),
        char('d'),
        char('e'),
        char('f'),
        char('g'),
        char('h'),
        char('i'),
        char('j'),
        char('k'),
        char('l'),
        char('m'),
        char('n'),
    ));
    let mut s = stream("nagx");
    assert_eq!(parser.get(&mut s), Ok('n'));
    assert_eq!(parser.get(&mut s), Ok('a'));
    assert_eq!(parser.parse(&mut s), Ok(()));
    assert_eq!(parser.get(&mut s), Err(unexpected(4)));
    let mut four = choice((char('a'), char('b'), char('c'), char('d')));
    assert_eq!(four.get(&mut stream("d")), Ok('d'));
    let mut five = choice((char('a'), char('b'), char('c'), char('d'), char('e')));
    assert_eq!(five.get(&mut stream("e")), Ok('e'));
}

#[test]
fn delimiters_are_left_out_of_the_range() {
    let mut s = stream("'quoted' rest");
    let range = many(none_of(vec!['\''])).get_between(&mut s, char('\'')).unwrap();
    assert_eq!(range.to_ref(&mut s), &b"quoted"[..]);
    assert_eq!(s.position(), 8);
    assert_eq!(letter().get_between(&mut s, char('\'')).err(), Some(unexpected(9)));
    assert_eq!(s.position(), 8);
    assert_eq!(letter().get_between(&mut s, space()).err(), Some(unexpected(11)));
    assert_eq!(s.position(), 10);
    assert_eq!(digit().get_between(&mut s, letter()).err(), Some(unexpected(12)));
    assert_eq!(s.position(), 11);
}

#[test]
fn a_range_that_fails_leaves_no_checkpoint() {
    let text = "x".repeat(4 * CHUNK_SIZE);
    let mut s = ElasticBufferStreamer::unlimited(text.as_bytes());
    assert!(digit().get_range(&mut s).is_err());
    assert!((chars("xx"), digit()).get(&mut s).is_err());
    assert!(digit().get_between(&mut s, letter()).is_err());
    assert!(letter().get_between(&mut s, digit()).is_err());
    assert!(many_max(chars("x"), 2).get(&mut s).is_err());
    assert!(many_max(chars("x"), 0).parse(&mut s).is_err());
    for _ in 0..2 * CHUNK_SIZE {
        assert!(s.next().is_ok());
    }
    assert!(s.buffer_len() <= CHUNK_SIZE + 1);
}

#[test]
fn several_ranges_can_be_held() {
    let mut s = stream("key=value");
    let mut parser = (many(letter()), chars("="), chars("value"));
    let (key, equals, value) = parser.get(&mut s).unwrap();
    assert_eq!(key, vec!['k', 'e', 'y']);
    assert_eq!(value.to_ref(&mut s), &b"value"[..]);
    assert_eq!(equals.to_ref(&mut s), &b"="[..]);
}

#[test]
fn outputs_can_be_discarded() {
    let text = "x".repeat(4 * CHUNK_SIZE);
    let mut s = ElasticBufferStreamer::unlimited(text.as_bytes());
    let mut parser = (maybe(chars("x")), many_max(attempt(chars("xy")), 1), eof());
    assert!(parser.get(&mut s).is_err());
    let mut three = (chars("x"), maybe(chars("x")), attempt(chars("x")));
    let output = three.get(&mut s).unwrap();
    discard(&three, output, &mut s);
    for _ in 0..2 * CHUNK_SIZE {
        assert!(s.next().is_ok());
    }
    assert!(s.buffer_len() <= CHUNK_SIZE + 1);
}

fn discard<P: Parser>(_parser: &P, output: P::Output, stream: &mut P::Input) {
    P::discard(output, stream)
}

/// Parses a decimal number.
struct Number;

type Bytes = ElasticBufferStreamer<&'static [u8]>;

impl Parser for Number {
    type Input = Bytes;
    type Output = u64;

    fn parse(&mut self, stream: &mut Bytes) -> Result<(), ParserError> {
        self.get(stream).map(|_| ())
    }

    fn get(&mut self, stream: &mut Bytes) -> Result<u64, ParserError> {
        let (first, rest) = (digit(), many(digit())).get(stream)?;
        let digits = std::iter::once(first).chain(rest);
        Ok(digits.fold(0, |n, c| 10 * n + u64::from(c as u32 - '0' as u32)))
    }

    fn discard(_output: u64, _stream: &mut Bytes) {}
}

#[test]
fn parsers_can_be_written_by_hand() {
    let mut s: Bytes = ElasticBufferStreamer::unlimited(&b"12,345;6"[..]);
    let mut list = (Number, many(attempt((char(','), Number))));
    assert_eq!(list.get(&mut s), Ok((12, vec![(',', 345)])));
    assert_eq!(s.position(), 6);
    let range = Number.get_between(&mut s, char(';')).err();
    assert_eq!(range, Some(unexpected_end(8)));
}

/// A source which fails each other time that it is asked, and delivers one byte in between.
struct Stutter(&'static [u8], bool);

impl Source for Stutter {
    fn read(&mut self, buf: &mut [u8]) -> Result<usize, ErrorKind> {
        self.1 = !self.1;
        if self.1 {
            return Err(ErrorKind::TimedOut);
        }
        match self.0.split_first() {
            Some((first, rest)) => {
                buf[0] = *first;
                self.0 = rest;
                Ok(1)
            }
            None => Ok(0),
        }
    }
}

#[test]
fn parsers_of_a_character_ask_once() {
    let failed = |at| ParserError::Lazy(at, ParserErrorKind::InputError(ErrorKind::TimedOut));
    let mut s = ElasticBufferStreamer::unlimited(Stutter(&b"ab"[..], false));
    assert_eq!(letter().get(&mut s), Err(failed(0)));
    assert_eq!(letter().get(&mut s), Ok('a'));
    assert_eq!(letter().parse(&mut s), Err(failed(1)));
    assert_eq!(digit().parse(&mut s), Err(unexpected(2)));
    assert_eq!(letter().get(&mut s), Ok('b'));
    assert_eq!(eof().parse(&mut s), Err(failed(2)));
    assert_eq!(eof().parse(&mut s), Ok(()));
    assert_eq!(one_of(vec!['a']).get(&mut s), Err(unexpected_end(2)));
    assert_eq!(none_of(vec!['a']).get(&mut s), Err(unexpected_end(2)));
}

#[test]
fn a_repeated_parser_keeps_no_text() {
    let text = "x".repeat(3 * CHUNK_SIZE);
    let full = |at| ParserError::Lazy(at, ParserErrorKind::BufferFull);
    let mut s = ElasticBufferStreamer::with_max_size(text.as_bytes(), CHUNK_SIZE + 1);
    assert_eq!(many(letter()).parse(&mut s), Ok(()));
    assert_eq!(s.position(), 3 * CHUNK_SIZE as u64);
    assert!(s.buffer_len() <= CHUNK_SIZE + 1);
    let mut s = ElasticBufferStreamer::with_max_size(text.as_bytes(), CHUNK_SIZE + 1);
    let end = CHUNK_SIZE as u64;
    assert_eq!(attempt(many(letter())).parse(&mut s), Err(full(end)));
    assert_eq!(s.position(), 0);
    assert_eq!(many(letter()).get_range(&mut s).err(), Some(full(end)));
    assert_eq!(s.position(), end);
    assert_eq!(letter().get(&mut s), Ok('x'));
}

#[test]
fn outputs_keep_their_text_until_the_next_parser_is_done() {
    let text = format!("ab{}", "x".repeat(CHUNK_SIZE));
    let mut s = ElasticBufferStreamer::with_max_size(text.as_bytes(), CHUNK_SIZE + 1);
    let mut parser = (chars("ab"), many(letter()));
    assert_eq!(
        parser.get(&mut s).err(),
        Some(ParserError::Lazy(CHUNK_SIZE as u64, ParserErrorKind::BufferFull))
    );
    assert_eq!(many(letter()).parse(&mut s), Ok(()));
    let mut s = ElasticBufferStreamer::with_max_size(text.as_bytes(), CHUNK_SIZE + 1);
    assert_eq!(parser.parse(&mut s), Ok(()));
    assert_eq!(s.position(), CHUNK_SIZE as u64 + 2);
}

/// Succeeds on nothing as many times as it says.
struct Countdown(u64);

impl Parser for Countdown {
    type Input = Bytes;
    type Output = u64;

    fn parse(&mut self, stream: &mut Bytes) -> Result<(), ParserError> {
        self.get(stream).map(|_| ())
    }

    fn get(&mut self, stream: &mut Bytes) -> Result<u64, ParserError> {
        if self.0 == 0 {
            return Err(unexpected(stream.position()));
        }
        self.0 -= 1;
        Ok(self.0)
    }

    fn discard(_output: u64, _stream: &mut Bytes) {}
}

#[test]
fn many_ends_when_its_parser_does() {
    let mut s: Bytes = ElasticBufferStreamer::unlimited(&b"a"[..]);
    assert_eq!(many(Countdown(3)).get(&mut s), Ok(vec![2, 1, 0]));
    assert_eq!(many(Countdown(2)).parse(&mut s), Ok(()));
    assert_eq!(s.position(), 0);
}

#[test]
fn a_range_is_made_of_two_checkpoints() {
    let mut s = stream("abc");
    let range = chars("ab").get(&mut s).unwrap();
    let (from, to) = range.into_checkpoints();
    s.reset(to);
    assert_eq!(s.next(), Ok('c'));
    s.reset(from);
    assert_eq!(s.next(), Ok('a'));
}

fn gets_as_it_parses<'a, P: Parser<Input = ElasticBufferStreamer<&'a [u8]>>>(
    mut make: impl FnMut() -> P,
    text: &'a str,
) {
    let (mut one, mut other) = (stream(text), stream(text));
    assert_eq!(make().get(&mut one).map(|_| ()), make().parse(&mut other));
    assert_eq!(one.position(), other.position());
    assert_eq!(one.buffer_len(), other.buffer_len());
    assert_eq!(one.can_go_back(), other.can_go_back());
}

#[test]
fn outputs_of_characters_change_nothing_else() {
    for text in ["", "a", "1", "a1", "ab1", "1a", "aaaa-"] {
        gets_as_it_parses(letter, text);
        gets_as_it_parses(eof, text);
        gets_as_it_parses(|| attempt((letter(), digit())), text);
        gets_as_it_parses(|| maybe(letter()), text);
        gets_as_it_parses(|| many(letter()), text);
        gets_as_it_parses(|| many_max(letter(), 2), text);
        gets_as_it_parses(|| (letter(), digit()), text);
        gets_as_it_parses(|| choice((letter(), digit())), text);
    }
}
