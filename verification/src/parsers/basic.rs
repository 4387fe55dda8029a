//! Parsers of characters and of the end of the input.
use crate::character;
use crate::character::{
    contains, is_alphabetic, is_alphanumeric, is_ascii_digit, is_ascii_whitespace,
};
use crate::errors::{ParserError, ParserErrorKind, StreamError};
use crate::parser;
use crate::parser::Parser;
use crate::streamer::{StreamState, Streamer, StreamerRange};
use crate::text;
use std::marker::PhantomData;
use vstd::multiset::Multiset;
use vstd::prelude::*;

verus! {

/// Whether an outcome is an error of the given kind at the position `at`.
pub open spec fn is_lazy(error: Option<ParserError>, at: nat, kind: ParserErrorKind) -> bool {
    error matches Some(ParserError::Lazy(position, found)) && position == at && found == kind
}

/// Parses the end of the input.
pub struct Eof<S: Streamer>(PhantomData<S>);

impl<S: Streamer> Parser for Eof<S> {
    type Input = S;

    type Output = ();

    open spec fn ready(&self, from: StreamState) -> bool {
        true
    }

    /// The stream is asked once. A character that it gives is given back.
    open spec fn parses(
        &self,
        after: Self,
        from: StreamState,
        to: StreamState,
        error: Option<ParserError>,
    ) -> bool {
        &&& after == *self
        &&& exists|read: StreamState, answer: Result<char, StreamError>|
            {
                &&& #[trigger] from.reads(read, answer)
                &&& match answer {
                    Ok(_) => {
                        &&& to == read.stepped_back()
                        &&& is_lazy(error, from.pos, ParserErrorKind::Unexpected)
                    },
                    Err(StreamError::EndOfInput) => to == read && error is None,
                    Err(failure) => {
                        &&& to == read
                        &&& is_lazy(error, from.pos, ParserErrorKind::of_stream(failure))
                    },
                }
            }
    }

    open spec fn gets(
        &self,
        after: Self,
        from: StreamState,
        to: StreamState,
        r: Result<(), ParserError>,
    ) -> bool {
        self.parses(after, from, to, parser::failure(r))
    }

    open spec fn held(output: ()) -> Multiset<nat> {
        Multiset::empty()
    }

    fn parse(&mut self, stream: &mut S) -> (r: Result<(), ParserError>) {
        match stream.next() {
            Err(StreamError::EndOfInput) => Ok(()),
            Ok(_) => {
                stream.before();
                Err(ParserError::Lazy(stream.position(), ParserErrorKind::Unexpected))
            },
            Err(error) => {
                Err(ParserError::Lazy(stream.position(), ParserErrorKind::from_stream(error)))
            },
        }
    }

    fn get(&mut self, stream: &mut S) -> (r: Result<(), ParserError>) {
        let r = self.parse(stream);
        assert(stream@.marks =~= old(stream)@.marks.add(Multiset::empty()));
        r
    }

    fn discard(output: (), stream: &mut S) {
        assert(stream@.marks =~= stream@.marks.sub(Multiset::empty()));
    }
}

/// Parses the end of the input.
pub fn eof<S: Streamer>() -> (parser: Eof<S>)
    ensures
        forall|from: StreamState| #[trigger] parser.ready(from),
{
    Eof(PhantomData)
}

/// Parses a character that a predicate holds of.
///
/// The contracts speak of predicates that do not change when they are called. A predicate that
/// keeps a state cannot be verified, and nothing is claimed of it.
pub struct CharPred<S: Streamer, F: FnMut(char) -> bool>(F, PhantomData<S>);

impl<S: Streamer, F: FnMut(char) -> bool> CharPred<S, F> {
    /// The predicate.
    pub closed spec fn predicate(&self) -> F {
        self.0
    }

    /// Whether the parser accepts the characters of `class` and no others.
    pub open spec fn accepts(&self, class: spec_fn(char) -> bool) -> bool {
        &&& forall|c: char| #[trigger] call_requires(self.predicate(), (c,))
        &&& forall|c: char, b: bool| #[trigger]
            call_ensures(self.predicate(), (c,), b) ==> b == class(c)
    }
}

impl<S: Streamer, F: FnMut(char) -> bool> Parser for CharPred<S, F> {
    type Input = S;

    type Output = char;

    open spec fn ready(&self, from: StreamState) -> bool {
        forall|c: char| #[trigger] call_requires(self.predicate(), (c,))
    }

    /// The stream is asked once. A character that the predicate does not hold of is given back, and
    /// the error tells the position after it.
    open spec fn parses(
        &self,
        after: Self,
        from: StreamState,
        to: StreamState,
        error: Option<ParserError>,
    ) -> bool {
        &&& after == *self
        &&& exists|read: StreamState, answer: Result<char, StreamError>|
            {
                &&& #[trigger] from.reads(read, answer)
                &&& match answer {
                    Ok(c) => {
                        ||| {
                            &&& call_ensures(self.predicate(), (c,), true)
                            &&& to == read
                            &&& error is None
                        }
                        ||| {
                            &&& call_ensures(self.predicate(), (c,), false)
                            &&& to == read.stepped_back()
                            &&& is_lazy(error, read.pos, ParserErrorKind::Unexpected)
                        }
                    },
                    Err(failure) => {
                        &&& to == read
                        &&& is_lazy(error, from.pos, ParserErrorKind::of_stream(failure))
                    },
                }
            }
    }

    open spec fn gets(
        &self,
        after: Self,
        from: StreamState,
        to: StreamState,
        r: Result<char, ParserError>,
    ) -> bool {
        &&& self.parses(after, from, to, parser::failure(r))
        &&& match r {
            Ok(c) => c == text::char_at(from.feed.text, from.pos),
            Err(_) => true,
        }
    }

    open spec fn held(output: char) -> Multiset<nat> {
        Multiset::empty()
    }

    fn get(&mut self, stream: &mut S) -> (r: Result<char, ParserError>) {
        let ghost from = stream@;
        let r = match stream.next() {
            Ok(c) => {
                assert(call_requires(self.predicate(), (c,)));
                if (self.0)(c) {
                    assert(stream@.marks =~= from.marks.add(Self::held(c)));
                    Ok(c)
                } else {
                    let unexpected_pos: u64 = stream.position();
                    stream.before();
                    Err(ParserError::Lazy(unexpected_pos, ParserErrorKind::Unexpected))
                }
            },
            Err(error) => {
                Err(ParserError::Lazy(stream.position(), ParserErrorKind::from_stream(error)))
            },
        };
        assert(old(self).parses(*self, from, stream@, parser::failure(r)));
        assert(old(self).gets(*self, from, stream@, r));
        r
    }

    fn parse(&mut self, stream: &mut S) -> (r: Result<(), ParserError>) {
        let r = self.get(stream);
        assert(old(self).gets(*self, old(stream)@, stream@, r));
        match r {
            Ok(_) => {
                assert(stream@.marks =~= old(stream)@.marks);
                Ok(())
            },
            Err(error) => Err(error),
        }
    }

    fn discard(output: char, stream: &mut S) {
        assert(stream@.marks =~= stream@.marks.sub(Multiset::empty()));
    }
}

/// Parses a character that `predicate` holds of.
///
/// Verus does not know of the type of a closure that it is a predicate. Verified code hands the
/// closure to a function that is generic in the predicate, and makes and applies the parser there.
pub fn char_predicate<S: Streamer, F: FnMut(char) -> bool>(predicate: F) -> (parser: CharPred<S, F>)
    ensures
        parser.predicate() == predicate,
{
    CharPred(predicate, PhantomData)
}

/// Parses a letter or a digit of any script.
pub fn alpha_num<S: Streamer>() -> (parser: CharPred<S, impl FnMut(char) -> bool>)
    ensures
        parser.accepts(|c: char| character::alphanumeric(c)),
{
    let predicate = |c: char| -> (b: bool)
        ensures
            b == character::alphanumeric(c),
        { is_alphanumeric(c) };
    char_predicate(predicate)
}

/// Parses a digit of ASCII.
pub fn digit<S: Streamer>() -> (parser: CharPred<S, impl FnMut(char) -> bool>)
    ensures
        parser.accepts(|c: char| character::ascii_digit(c)),
{
    let predicate = |c: char| -> (b: bool)
        ensures
            b == character::ascii_digit(c),
        { is_ascii_digit(c) };
    char_predicate(predicate)
}

/// Parses a letter of any script.
pub fn letter<S: Streamer>() -> (parser: CharPred<S, impl FnMut(char) -> bool>)
    ensures
        parser.accepts(|c: char| character::alphabetic(c)),
{
    let predicate = |c: char| -> (b: bool)
        ensures
            b == character::alphabetic(c),
        { is_alphabetic(c) };
    char_predicate(predicate)
}

/// Parses a white space of ASCII.
pub fn space<S: Streamer>() -> (parser: CharPred<S, impl FnMut(char) -> bool>)
    ensures
        parser.accepts(|c: char| character::ascii_whitespace(c)),
{
    let predicate = |c: char| -> (b: bool)
        ensures
            b == character::ascii_whitespace(c),
        { is_ascii_whitespace(c) };
    char_predicate(predicate)
}

/// Parses the character `expected`.
pub fn char<S: Streamer>(expected: char) -> (parser: CharPred<S, impl FnMut(char) -> bool>)
    ensures
        parser.accepts(|c: char| c == expected),
{
    let predicate = move |c: char| -> (b: bool)
        ensures
            b == (c == expected),
        { c == expected };
    char_predicate(predicate)
}

/// Parses one of the characters `chars`.
pub fn one_of<S: Streamer>(chars: Vec<char>) -> (parser: CharPred<S, impl FnMut(char) -> bool>)
    ensures
        parser.accepts(|c: char| chars@.contains(c)),
{
    let predicate = move |c: char| -> (b: bool)
        ensures
            b == chars@.contains(c),
        { contains(&chars, c) };
    char_predicate(predicate)
}

/// Parses a character that is none of `chars`.
pub fn none_of<S: Streamer>(chars: Vec<char>) -> (parser: CharPred<S, impl FnMut(char) -> bool>)
    ensures
        parser.accepts(|c: char| !chars@.contains(c)),
{
    let predicate = move |c: char| -> (b: bool)
        ensures
            b == !chars@.contains(c),
        { !contains(&chars, c) };
    char_predicate(predicate)
}

/// Makes each of the parsers of a class, and holds it to the characters that its name stands for.
#[allow(dead_code)]
fn classes_are_what_they_are_named<S: Streamer>(
    expected: char,
    accepted: Vec<char>,
    refused: Vec<char>,
) {
    let ghost (any, none) = (accepted@, refused@);
    let alpha_num = alpha_num::<S>();
    let digit = digit::<S>();
    let letter = letter::<S>();
    let space = space::<S>();
    let one = char::<S>(expected);
    let one_of = one_of::<S>(accepted);
    let none_of = none_of::<S>(refused);
    assert(alpha_num.accepts(|c: char| character::alphanumeric(c)));
    assert(digit.accepts(|c: char| '0' <= c <= '9'));
    assert(letter.accepts(|c: char| character::alphabetic(c)));
    assert(space.accepts(
        |c: char| c == ' ' || c == '\t' || c == '\n' || c == '\x0c' || c == '\r',
    ));
    assert(one.accepts(|c: char| c == expected));
    assert(one_of.accepts(|c: char| exists|i: int| 0 <= i < any.len() && #[trigger] any[i] == c));
    assert(none_of.accepts(
        |c: char| forall|i: int| 0 <= i < none.len() ==> #[trigger] none[i] != c,
    ));
}

/// Parses a given word.
pub struct Chars<S: Streamer>(&'static str, PhantomData<S>);

impl<S: Streamer> Chars<S> {
    /// The characters of the word.
    pub closed spec fn word(&self) -> Seq<char> {
        self.0@
    }
}

/// Whether asking for the characters of `word` in order may turn the state `from` into `to`.
pub open spec fn reads_word(from: StreamState, to: StreamState, word: Seq<char>) -> bool
    decreases word.len(),
{
    if word.len() == 0 {
        to == from
    } else {
        exists|at: StreamState|
            {
                &&& reads_word(from, at, word.drop_last())
                &&& #[trigger] at.reads(to, Ok(word.last()))
            }
    }
}

/// Whether asking once for the character `c` may fail with `error` and turn the state `from` into
/// `to`. Another character is given back, and the error tells the position after it.
pub open spec fn lacks_char(
    from: StreamState,
    to: StreamState,
    c: char,
    error: ParserError,
) -> bool {
    exists|read: StreamState, answer: Result<char, StreamError>|
        {
            &&& #[trigger] from.reads(read, answer)
            &&& match answer {
                Ok(found) => {
                    &&& found != c
                    &&& to == read.stepped_back()
                    &&& is_lazy(Some(error), read.pos, ParserErrorKind::Unexpected)
                },
                Err(failure) => {
                    &&& to == read
                    &&& is_lazy(Some(error), from.pos, ParserErrorKind::of_stream(failure))
                },
            }
        }
}

impl<S: Streamer> Parser for Chars<S> {
    type Input = S;

    type Output = S::Range;

    open spec fn ready(&self, from: StreamState) -> bool {
        self.word().len() > 0
    }

    /// If the parser fails, the stream is after the characters of the word that it found.
    open spec fn parses(
        &self,
        after: Self,
        from: StreamState,
        to: StreamState,
        error: Option<ParserError>,
    ) -> bool {
        &&& after == *self
        &&& match error {
            None => reads_word(from, to, self.word()),
            Some(error) => exists|n: int, at: StreamState|
                {
                    &&& 0 <= n < self.word().len()
                    &&& #[trigger] reads_word(from, at, self.word().take(n))
                    &&& lacks_char(at, to, self.word()[n], error)
                },
        }
    }

    /// The stream keeps the word from its beginning on.
    open spec fn gets(
        &self,
        after: Self,
        from: StreamState,
        to: StreamState,
        r: Result<S::Range, ParserError>,
    ) -> bool {
        exists|at: StreamState|
            {
                &&& #[trigger] self.parses(after, from.marked(), at, parser::failure(r))
                &&& match r {
                    Ok(range) => {
                        &&& to == at.marked()
                        &&& range.start() == from.pos
                        &&& range.end() == to.pos
                    },
                    Err(_) => to == at.released(from.pos),
                }
            }
    }

    open spec fn held(output: S::Range) -> Multiset<nat> {
        Multiset::empty().insert(output.start()).insert(output.end())
    }

    fn parse(&mut self, stream: &mut S) -> (r: Result<(), ParserError>) {
        let word = self.0;
        let ghost from = stream@;
        proof {
            assert(word@.take(0) =~= Seq::<char>::empty());
        }
        for b in iter: word.chars()
            invariant
                iter.seq() == word@,
                word@ == old(self).word(),
                *self == *old(self),
                stream.wf(),
                from == old(stream)@,
                stream@.feed == from.feed,
                stream@.marks == from.marks,
                from.pos <= stream@.pos,
                reads_word(from, stream@, word@.take(iter.index() as int)),
        {
            let ghost n = iter.index() as int;
            let ghost at = stream@;
            let mut parser = char::<S>(b);
            match parser.parse(stream) {
                Ok(()) => {
                    proof {
                        let more = word@.take(n + 1);
                        assert(at.reads(stream@, Ok(b)));
                        assert(more.last() == b);
                        assert(more.drop_last() =~= word@.take(n));
                        assert(reads_word(from, at, more.drop_last()));
                    }
                },
                Err(error) => {
                    assert(lacks_char(at, stream@, word@[n], error));
                    assert(reads_word(from, at, self.word().take(n)));
                    return Err(error);
                },
            }
        }
        proof {
            assert(word@.take(word@.len() as int) =~= word@);
        }
        Ok(())
    }

    fn get(&mut self, stream: &mut S) -> (r: Result<S::Range, ParserError>) {
        let r = self.get_range(stream);
        assert(r is Ok ==> stream@.marks =~= old(stream)@.marks.add(Self::held(r->Ok_0)));
        r
    }

    fn discard(output: S::Range, stream: &mut S) {
        let ghost held = Self::held(output);
        proof {
            assert(held.count(output.start()) > 0);
            assert(held.remove(output.start()).count(output.end()) > 0);
        }
        stream.release_range(output);
        assert(stream@.marks =~= old(stream)@.marks.sub(held));
    }
}

/// Parses the word `range`, which is not empty.
pub fn chars<S: Streamer>(range: &'static str) -> (parser: Chars<S>)
    ensures
        parser.word() == range@,
{
    Chars(range, PhantomData)
}

} // verus!
