//! What holds of parsers.
use crate::choice;
use crate::choice::Choice;
use crate::errors::{ParserError, ParserErrorKind, StreamError};
use crate::parser;
use crate::parser::Parser;
use crate::parsers::basic;
use crate::parsers::basic::{CharPred, Chars, Eof};
use crate::recover;
use crate::recover::{Attempt, Maybe};
use crate::repeat;
use crate::repeat::{Many, ManyMax};
use crate::sequence;
use crate::streamer;
use crate::streamer::{StreamState, Streamer, StreamerRange};
use crate::text;
use vstd::prelude::*;
use vstd::utf8::*;

verus! {

/// The end of the run of characters of `class` that begins at `from`: the first position that no
/// character of `class` begins at.
pub open spec fn run_end(text: Seq<u8>, class: spec_fn(char) -> bool, from: nat) -> nat
    decreases text.len() - from,
{
    let width = text::width_at(text, from);
    if width > 0 && from + width <= text.len() && class(text::char_at(text, from)) {
        run_end(text, class, from + width)
    } else {
        from
    }
}

/// The number of characters of the run of characters of `class` that begins at `from`.
pub open spec fn run_len(text: Seq<u8>, class: spec_fn(char) -> bool, from: nat) -> nat
    decreases text.len() - from,
{
    let width = text::width_at(text, from);
    if width > 0 && from + width <= text.len() && class(text::char_at(text, from)) {
        1 + run_len(text, class, from + width)
    } else {
        0
    }
}

/// Whether an outcome is an error of the given kind at the position `at`.
pub open spec fn is_lazy(error: Option<ParserError>, at: nat, kind: ParserErrorKind) -> bool {
    error matches Some(ParserError::Lazy(position, found)) && position == at && found == kind
}

/// A run of characters of a class goes on as far as there are characters of the class: all that
/// begin in it are, and none follows it.
pub proof fn law_run_is_as_long_as_can_be(
    text: Seq<u8>,
    class: spec_fn(char) -> bool,
    from: nat,
)
    requires
        valid_utf8(text),
        text::is_boundary(text, from),
    ensures
        from <= run_end(text, class, from) <= text.len(),
        text::is_boundary(text, run_end(text, class, from)),
        run_end(text, class, from) == text.len() || !class(
            text::char_at(text, run_end(text, class, from)),
        ),
        exists|word: Seq<char>|
            {
                &&& word.len() == run_len(text, class, from)
                &&& all_in(word, class)
                &&& #[trigger] text::spells(text, from, run_end(text, class, from), word)
            },
    decreases text.len() - from,
{
    if from < text.len() {
        text::lemma_boundary_next(text, from);
    }
    let width = text::width_at(text, from);
    if from < text.len() && class(text::char_at(text, from)) {
        let c = text::char_at(text, from);
        law_run_is_as_long_as_can_be(text, class, from + width);
        let end = run_end(text, class, from);
        let rest = choose|rest: Seq<char>|
            {
                &&& rest.len() == run_len(text, class, from + width)
                &&& all_in(rest, class)
                &&& #[trigger] text::spells(text, from + width, end, rest)
            };
        let word = seq![c] + rest;
        text::lemma_char_encoding(text, from);
        text::lemma_encode_concat(seq![c], rest);
        assert(text.subrange(from as int, end as int) =~= text.subrange(
            from as int,
            (from + width) as int,
        ) + text.subrange((from + width) as int, end as int));
        assert(text::spells(text, from, end, word));
    } else {
        if from == text.len() {
            assert(text.skip(from as int).len() == 0);
        }
        let word = Seq::<char>::empty();
        assert(run_end(text, class, from) == from);
        assert(text.subrange(from as int, from as int) =~= encode_utf8(word));
        assert(text::spells(text, from, from, word));
    }
}

/// A predicate parser asks the stream once, and its outcome is what the stream answers: a character
/// of its class is taken, another one is given back and is unexpected, and an error is handed on
/// with the position of the stream, which does not move.
pub proof fn law_char_hands_on_answer<S: Streamer, F: FnMut(char) -> bool>(
    parser: CharPred<S, F>,
    class: spec_fn(char) -> bool,
    after: CharPred<S, F>,
    from: StreamState,
    to: StreamState,
    r: Result<char, ParserError>,
)
    requires
        parser.accepts(class),
        parser.gets(after, from, to, r),
    ensures
        after == parser,
        to.answers.len() == from.answers.len() + 1,
        to.answers.drop_last() == from.answers,
        to.marks == from.marks,
        match to.answers.last() {
            Ok(c) => if class(c) {
                &&& r == Ok::<char, ParserError>(c)
                &&& to.pos == from.pos + text::width_at(from.feed.text, from.pos)
                &&& to.back == Some(from.pos)
            } else {
                &&& is_lazy(
                    parser::failure(r),
                    from.pos + text::width_at(from.feed.text, from.pos),
                    ParserErrorKind::Unexpected,
                )
                &&& to.pos == from.pos
                &&& to.back is None
            },
            Err(error) => {
                &&& is_lazy(
                    parser::failure(r),
                    from.pos,
                    ParserErrorKind::of_stream(error),
                )
                &&& to.pos == from.pos
                &&& to.back == from.back
            },
        },
{
    let (read, answer) = choose|read: StreamState, answer: Result<char, StreamError>|
        {
            &&& #[trigger] from.reads(read, answer)
            &&& match answer {
                Ok(c) => {
                    ||| {
                        &&& call_ensures(parser.predicate(), (c,), true)
                        &&& to == read
                        &&& parser::failure(r) is None
                    }
                    ||| {
                        &&& call_ensures(parser.predicate(), (c,), false)
                        &&& to == read.stepped_back()
                        &&& is_lazy(
                            parser::failure(r),
                            read.pos,
                            ParserErrorKind::Unexpected,
                        )
                    }
                },
                Err(failure) => {
                    &&& to == read
                    &&& is_lazy(
                        parser::failure(r),
                        from.pos,
                        ParserErrorKind::of_stream(failure),
                    )
                },
            }
        };
    assert(from.answers.push(answer).drop_last() =~= from.answers);
}

/// Like `law_char_hands_on_answer` when the character is not asked for.
pub proof fn law_char_parses_answer<S: Streamer, F: FnMut(char) -> bool>(
    parser: CharPred<S, F>,
    class: spec_fn(char) -> bool,
    after: CharPred<S, F>,
    from: StreamState,
    to: StreamState,
    error: Option<ParserError>,
)
    requires
        parser.accepts(class),
        parser.parses(after, from, to, error),
    ensures
        after == parser,
        to.answers.len() == from.answers.len() + 1,
        to.answers.drop_last() == from.answers,
        to.marks == from.marks,
        match to.answers.last() {
            Ok(c) => if class(c) {
                &&& error is None
                &&& to.pos == from.pos + text::width_at(from.feed.text, from.pos)
                &&& to.back == Some(from.pos)
            } else {
                &&& is_lazy(
                    error,
                    from.pos + text::width_at(from.feed.text, from.pos),
                    ParserErrorKind::Unexpected,
                )
                &&& to.pos == from.pos
                &&& to.back is None
            },
            Err(failure) => {
                &&& is_lazy(error, from.pos, ParserErrorKind::of_stream(failure))
                &&& to.pos == from.pos
                &&& to.back == from.back
            },
        },
{
    let r = match error {
        None => Ok(text::char_at(from.feed.text, from.pos)),
        Some(e) => Err(e),
    };
    assert(parser.gets(after, from, to, r));
    law_char_hands_on_answer(parser, class, after, from, to, r);
}

/// The parser of the end of the input asks the stream once, and its outcome is what the stream
/// answers: it succeeds exactly if the stream is at its end, a character is given back and is
/// unexpected, and any other error is handed on. The stream does not move.
pub proof fn law_eof_hands_on_answer<S: Streamer>(
    parser: Eof<S>,
    after: Eof<S>,
    from: StreamState,
    to: StreamState,
    error: Option<ParserError>,
)
    requires
        parser.parses(after, from, to, error),
    ensures
        to.pos == from.pos,
        to.marks == from.marks,
        to.answers.len() == from.answers.len() + 1,
        to.answers.drop_last() == from.answers,
        error is None <==> to.answers.last() == Err::<char, StreamError>(StreamError::EndOfInput),
        to.answers.last() is Ok ==> is_lazy(error, from.pos, ParserErrorKind::Unexpected),
        to.answers.last() matches Err(failure) ==> failure is EndOfInput || is_lazy(
            error,
            from.pos,
            ParserErrorKind::of_stream(failure),
        ),
{
    let (read, answer) = choose|read: StreamState, answer: Result<char, StreamError>|
        {
            &&& #[trigger] from.reads(read, answer)
            &&& match answer {
                Ok(_) => {
                    &&& to == read.stepped_back()
                    &&& is_lazy(error, from.pos, ParserErrorKind::Unexpected)
                },
                Err(StreamError::EndOfInput) => to == read && error is None,
                Err(failure) => {
                    &&& to == read
                    &&& is_lazy(error, from.pos, ParserErrorKind::of_stream(failure))
                },
            }
        };
    assert(from.answers.push(answer).drop_last() =~= from.answers);
}

/// A predicate parser takes exactly one character, of its class. It finds a mismatch exactly at a
/// character of another class or at the end of the text, and leaves the stream there.
pub proof fn law_char_takes_one<S: Streamer, F: FnMut(char) -> bool>(
    parser: CharPred<S, F>,
    class: spec_fn(char) -> bool,
    after: CharPred<S, F>,
    from: StreamState,
    to: StreamState,
    error: Option<ParserError>,
)
    requires
        parser.accepts(class),
        from.fits(),
        parser.parses(after, from, to, error),
    ensures
        after == parser,
        to.fits(),
        to.feed == from.feed,
        to.marks == from.marks,
        error is None ==> {
            &&& from.pos < from.feed.text.len()
            &&& class(text::char_at(from.feed.text, from.pos))
            &&& to.pos == from.pos + text::width_at(from.feed.text, from.pos)
        },
        error is Some ==> to.pos == from.pos,
        recover::is_mismatch(error) && from.pos < from.feed.text.len() && !from.feed.abrupt
            ==> !class(text::char_at(from.feed.text, from.pos)),
{
}

/// Where nothing stops a stream but the end of its text, what a predicate parser does is determined
/// by the character at the position of the stream.
pub proof fn law_char_is_decided<S: Streamer, F: FnMut(char) -> bool>(
    parser: CharPred<S, F>,
    class: spec_fn(char) -> bool,
    after: CharPred<S, F>,
    from: StreamState,
    to: StreamState,
    error: Option<ParserError>,
)
    requires
        parser.accepts(class),
        from.fits(),
        from.feed.steady_at(from.pos),
        parser.parses(after, from, to, error),
    ensures
        error is None <==> from.pos < from.feed.text.len() && class(
            text::char_at(from.feed.text, from.pos),
        ),
        error is Some ==> recover::is_mismatch(error),
{
}

/// Where nothing stops a stream but the end of its text, a predicate parser gives the character at
/// the position of the stream exactly if it is of its class, and moves past its bytes. Otherwise
/// the stream stays where it is: another character is unexpected, and the error tells the position
/// after it, and so is the end of the input.
pub proof fn law_char_is_decided_by_text<S: Streamer, F: FnMut(char) -> bool>(
    parser: CharPred<S, F>,
    class: spec_fn(char) -> bool,
    after: CharPred<S, F>,
    from: StreamState,
    to: StreamState,
    r: Result<char, ParserError>,
)
    requires
        parser.accepts(class),
        from.fits(),
        parser.gets(after, from, to, r),
    ensures
        from.feed.steady_at(from.pos) ==> {
            let text = from.feed.text;
            if from.pos == text.len() {
                &&& is_lazy(
                    parser::failure(r),
                    from.pos,
                    ParserErrorKind::UnexpectedEndOfInput,
                )
                &&& to.pos == from.pos
            } else if class(text::char_at(text, from.pos)) {
                &&& r == Ok::<char, ParserError>(text::char_at(text, from.pos))
                &&& text.subrange(from.pos as int, to.pos as int) == encode_utf8(
                    seq![text::char_at(text, from.pos)],
                )
            } else {
                &&& is_lazy(
                    parser::failure(r),
                    from.pos + text::width_at(text, from.pos),
                    ParserErrorKind::Unexpected,
                )
                &&& to.pos == from.pos
            }
        },
{
    if from.pos < from.feed.text.len() {
        text::lemma_char_encoding(from.feed.text, from.pos);
    }
}

/// Of two predicate parsers of complementary classes, as those of `one_of` and `none_of`, exactly
/// one succeeds wherever the stream gives a character. At the end of the input both fail, and say
/// so.
pub proof fn law_complements_split_characters<
    S: Streamer,
    F: FnMut(char) -> bool,
    G: FnMut(char) -> bool,
>(
    parser: CharPred<S, F>,
    other: CharPred<S, G>,
    class: spec_fn(char) -> bool,
    from: StreamState,
    to: StreamState,
    to_other: StreamState,
    error: Option<ParserError>,
    error_other: Option<ParserError>,
)
    requires
        parser.accepts(class),
        other.accepts(|c: char| !class(c)),
        from.fits(),
        parser.parses(parser, from, to, error),
        other.parses(other, from, to_other, error_other),
    ensures
        gives_char(error) && gives_char(error_other) ==> (error is None <==> error_other is Some),
        from.feed.steady_at(from.pos) && from.pos < from.feed.text.len() ==> {
            &&& gives_char(error)
            &&& gives_char(error_other)
        },
        from.feed.steady_at(from.pos) && from.pos == from.feed.text.len() ==> {
            &&& is_lazy(error, from.pos, ParserErrorKind::UnexpectedEndOfInput)
            &&& is_lazy(error_other, from.pos, ParserErrorKind::UnexpectedEndOfInput)
        },
{
}

/// Whether a predicate parser with this outcome was given a character by the stream.
pub open spec fn gives_char(error: Option<ParserError>) -> bool {
    match error {
        None => true,
        Some(ParserError::Lazy(_, kind)) => kind is Unexpected,
        Some(ParserError::Detailed(_, _)) => false,
    }
}

/// The end of the input is found exactly where the text ends.
pub proof fn law_eof_is_the_end<S: Streamer>(
    parser: Eof<S>,
    after: Eof<S>,
    from: StreamState,
    to: StreamState,
    error: Option<ParserError>,
)
    requires
        from.fits(),
        parser.parses(after, from, to, error),
    ensures
        to.pos == from.pos,
        error is None && !from.feed.abrupt ==> from.pos == from.feed.text.len(),
        recover::is_mismatch(error) ==> from.pos < from.feed.text.len(),
        from.feed.steady() ==> (error is None <==> from.pos == from.feed.text.len()),
{
}

/// Characters that are asked for one after the other and given are what the text holds.
proof fn lemma_reads_word(from: StreamState, to: StreamState, word: Seq<char>)
    requires
        from.fits(),
        basic::reads_word(from, to, word),
    ensures
        to.fits(),
        to.feed == from.feed,
        to.marks == from.marks,
        text::spells(from.feed.text, from.pos, to.pos, word),
    decreases word.len(),
{
    let text = from.feed.text;
    if word.len() == 0 {
        assert(text.subrange(from.pos as int, from.pos as int) =~= encode_utf8(word));
    } else {
        let at = choose|at: StreamState|
            {
                &&& basic::reads_word(from, at, word.drop_last())
                &&& #[trigger] at.reads(to, Ok(word.last()))
            };
        lemma_reads_word(from, at, word.drop_last());
        text::lemma_spells_push(text, from.pos, at.pos, word.drop_last());
        assert(word.drop_last().push(word.last()) =~= word);
    }
}

/// The parser of a word succeeds only on the word, and finds a mismatch only where the text does
/// not go on with the word. The stream is then after the characters that agree.
pub proof fn law_word_is_found<S: Streamer>(
    parser: Chars<S>,
    after: Chars<S>,
    from: StreamState,
    to: StreamState,
    error: Option<ParserError>,
)
    requires
        from.fits(),
        parser.parses(after, from, to, error),
    ensures
        after == parser,
        to.fits(),
        to.feed == from.feed,
        to.marks == from.marks,
        error is None ==> text::spells(from.feed.text, from.pos, to.pos, parser.word()),
        recover::is_mismatch(error) && !from.feed.abrupt ==> forall|end: nat|
            !text::spells(from.feed.text, from.pos, end, parser.word()),
        error is Some ==> exists|n: int|
            0 <= n < parser.word().len() && text::spells(
                from.feed.text,
                from.pos,
                to.pos,
                #[trigger] parser.word().take(n),
            ),
        from.feed.steady() && error is Some ==> recover::is_mismatch(error),
{
    let text = from.feed.text;
    match error {
        None => lemma_reads_word(from, to, parser.word()),
        Some(e) => {
            let (n, at) = choose|n: int, at: StreamState|
                {
                    &&& 0 <= n < parser.word().len()
                    &&& #[trigger] basic::reads_word(from, at, parser.word().take(n))
                    &&& basic::lacks_char(at, to, parser.word()[n], e)
                };
            lemma_reads_word(from, at, parser.word().take(n));
            assert(text::spells(text, from.pos, to.pos, parser.word().take(n)));
            if e.mismatch() && !from.feed.abrupt {
                assert forall|end: nat| !text::spells(text, from.pos, end, parser.word()) by {
                    if text::spells(text, from.pos, end, parser.word()) {
                        text::lemma_spells_char(text, from.pos, at.pos, end, parser.word(), n);
                    }
                }
            }
        },
    }
}

/// The parser of a word asks for one character after the other, and stops at the first one that is
/// not the next one of the word: that one is given back, and the error tells the position after it.
/// A failure of the stream is handed on with the position of the stream.
pub proof fn law_word_is_followed<S: Streamer>(
    parser: Chars<S>,
    after: Chars<S>,
    from: StreamState,
    to: StreamState,
    error: Option<ParserError>,
)
    requires
        from.fits(),
        parser.parses(after, from, to, error),
    ensures
        ({
            let n = to.answers.len() - from.answers.len();
            let text = from.feed.text;
            match error {
                None => {
                    &&& n == parser.word().len()
                    &&& n > 0 ==> to.answers.last() == Ok::<char, StreamError>(parser.word().last())
                },
                Some(_) => {
                    &&& 1 <= n <= parser.word().len()
                    &&& text::spells(text, from.pos, to.pos, parser.word().take(n - 1))
                    &&& match to.answers.last() {
                        Ok(c) => {
                            &&& c != parser.word()[n - 1]
                            &&& to.pos < text.len()
                            &&& c == text::char_at(text, to.pos)
                            &&& is_lazy(
                                error,
                                to.pos + text::width_at(text, to.pos),
                                ParserErrorKind::Unexpected,
                            )
                        },
                        Err(failure) => is_lazy(
                            error,
                            to.pos,
                            ParserErrorKind::of_stream(failure),
                        ),
                    }
                },
            }
        }),
{
    match error {
        None => {
            lemma_reads_word(from, to, parser.word());
            lemma_word_is_answered(from, to, parser.word());
        },
        Some(e) => {
            let (n, at) = choose|n: int, at: StreamState|
                {
                    &&& 0 <= n < parser.word().len()
                    &&& #[trigger] basic::reads_word(from, at, parser.word().take(n))
                    &&& basic::lacks_char(at, to, parser.word()[n], e)
                };
            lemma_reads_word(from, at, parser.word().take(n));
            lemma_word_is_answered(from, at, parser.word().take(n));
            assert(to.answers.len() - from.answers.len() == n + 1);
        },
    }
}

proof fn lemma_word_is_answered(from: StreamState, to: StreamState, word: Seq<char>)
    requires
        basic::reads_word(from, to, word),
    ensures
        to.answers.len() == from.answers.len() + word.len(),
        word.len() > 0 ==> to.answers.last() == Ok::<char, StreamError>(word.last()),
    decreases word.len(),
{
    if word.len() > 0 {
        let at = choose|at: StreamState|
            {
                &&& basic::reads_word(from, at, word.drop_last())
                &&& #[trigger] at.reads(to, Ok(word.last()))
            };
        lemma_word_is_answered(from, at, word.drop_last());
    }
}

/// The range of a word goes from where the stream was to where the word ends, and the stream keeps
/// it. If the word is not found, the stream keeps nothing, and is where the parser leaves it.
pub proof fn law_word_is_kept<S: Streamer>(
    parser: Chars<S>,
    after: Chars<S>,
    from: StreamState,
    to: StreamState,
    r: Result<S::Range, ParserError>,
)
    requires
        from.fits(),
        parser.gets(after, from, to, r),
    ensures
        after == parser,
        to.feed == from.feed,
        match r {
            Ok(range) => {
                &&& range.start() == from.pos
                &&& range.end() == to.pos
                &&& text::spells(from.feed.text, from.pos, to.pos, parser.word())
                &&& to.marks == from.marks.insert(from.pos).insert(to.pos)
                &&& to.answers.len() == from.answers.len() + parser.word().len()
            },
            Err(error) => {
                &&& to.marks == from.marks
                &&& exists|start: StreamState, at: StreamState|
                    {
                        &&& start == (StreamState { marks: from.marks.insert(from.pos), ..from })
                        &&& #[trigger] parser.parses(after, start, at, Some(error))
                        &&& to == (StreamState { marks: from.marks, ..at })
                    }
                &&& error.mismatch() && !from.feed.abrupt ==> forall|end: nat|
                    !text::spells(from.feed.text, from.pos, end, parser.word())
                &&& from.feed.steady() ==> error.mismatch()
            },
        },
        from.feed.steady() ==> (r is Ok <==> exists|end: nat|
            text::spells(from.feed.text, from.pos, end, parser.word())),
{
    let at = choose|at: StreamState|
        {
            &&& #[trigger] parser.parses(after, from.marked(), at, parser::failure(r))
            &&& match r {
                Ok(range) => {
                    &&& to == at.marked()
                    &&& range.start() == from.pos
                    &&& range.end() == to.pos
                },
                Err(_) => to == at.released(from.pos),
            }
        };
    law_word_is_found(parser, after, from.marked(), at, parser::failure(r));
    law_word_is_followed(parser, after, from.marked(), at, parser::failure(r));
    assert(from.marks.insert(from.pos).remove(from.pos) =~= from.marks);
    assert(from.marked() == (StreamState { marks: from.marks.insert(from.pos), ..from }));
}

/// The range that the parser of a word gives holds the bytes of the word, as long as the range is
/// not given back.
pub proof fn law_range_of_word<S: Streamer>(
    parser: Chars<S>,
    after: Chars<S>,
    from: StreamState,
    to: StreamState,
    stream: S,
    range: S::Range,
)
    requires
        from.fits(),
        parser.gets(after, from, to, Ok(range)),
        stream.wf(),
        stream@.feed == from.feed,
        streamer::holds_both(stream@.marks, range.start(), range.end()),
    ensures
        range.belongs(&stream),
        range.content(&stream) == encode_utf8(parser.word()),
{
    let at = choose|at: StreamState|
        {
            &&& #[trigger] parser.parses(after, from.marked(), at, None)
            &&& to == at.marked()
            &&& range.start() == from.pos
            &&& range.end() == to.pos
        };
    law_word_is_found(parser, after, from.marked(), at, None);
    stream.lemma_range(range);
}

/// A parser that is attempted goes back to where it started whenever it fails.
pub proof fn law_attempt_goes_back<S: Streamer, P: Parser<Input = S>>(
    parser: Attempt<P>,
    after: Attempt<P>,
    from: StreamState,
    to: StreamState,
    error: ParserError,
)
    requires
        parser.parses(after, from, to, Some(error)) || parser.gets(after, from, to, Err(error)),
    ensures
        to.pos == from.pos,
{
}

/// A parser that is attempted can be optional, repeated or an alternative, as far as where it
/// leaves the stream is concerned.
pub proof fn law_attempt_stays<S: Streamer, P: Parser<Input = S>>(
    parser: Attempt<P>,
    from: StreamState,
)
    ensures
        recover::stays(parser, from),
        recover::stays_unless_stream_fails(parser, from),
{
}

/// A parser that is attempted succeeds exactly as it does by itself on a stream that keeps its text
/// from there on.
pub proof fn law_attempt_succeeds_alike<S: Streamer, P: Parser<Input = S>>(
    parser: Attempt<P>,
    after: Attempt<P>,
    from: StreamState,
    there: StreamState,
    output: P::Output,
)
    ensures
        parser.inner().parses(after.inner(), from.marked(), there, None) ==> parser.parses(
            after,
            from,
            there.released(from.pos),
            None,
        ),
        parser.inner().gets(after.inner(), from.marked(), there, Ok(output)) ==> parser.gets(
            after,
            from,
            there.released(from.pos),
            Ok(output),
        ),
        forall|to: StreamState| #[trigger]
            parser.parses(after, from, to, None) ==> exists|at: StreamState| #[trigger]
                parser.inner().parses(after.inner(), from.marked(), at, None) && to.pos == at.pos,
{
}

/// An optional parser never finds a mismatch.
pub proof fn law_maybe_never_mismatches<S: Streamer, P: Parser<Input = S>>(
    parser: Maybe<P>,
    after: Maybe<P>,
    from: StreamState,
    to: StreamState,
    error: Option<ParserError>,
)
    requires
        parser.parses(after, from, to, error),
    ensures
        !recover::is_mismatch(error),
        error is None ==> to.pos == from.pos || parser.inner().parses(
            after.inner(),
            from,
            to,
            None,
        ),
{
}

/// A repeated parser fails only when the stream does, as the parser that it repeats does then.
pub proof fn law_many_fails_only_with_stream<S: Streamer, P: Parser<Input = S>>(
    parser: Many<P>,
    after: Many<P>,
    from: StreamState,
    to: StreamState,
    error: ParserError,
)
    requires
        parser.parses(after, from, to, Some(error)),
    ensures
        error.stream_failure(),
        exists|last: P, at: StreamState| #[trigger]
            last.parses(after.inner(), at, to, Some(error)),
{
}

/// A parser that is repeated up to a number of times fails only when the stream does, or when it
/// succeeds more often than that. The last time, the stream keeps its text from there on.
pub proof fn law_many_max_fails_only_with_stream_or_too_many<S: Streamer, P: Parser<Input = S>>(
    parser: ManyMax<P>,
    after: ManyMax<P>,
    from: StreamState,
    to: StreamState,
    error: ParserError,
)
    requires
        parser.parses(after, from, to, Some(error)),
    ensures
        error.stream_failure() || {
            &&& is_lazy(Some(error), to.pos, ParserErrorKind::TooMany)
            &&& exists|last: P, at: StreamState, end: StreamState|
                {
                    &&& at.pos == to.pos
                    &&& #[trigger] repeat::repeats(
                        parser.inner(),
                        last,
                        from,
                        at,
                        parser.max_count(),
                    )
                    &&& #[trigger] last.parses(after.inner(), at.marked(), end, None)
                }
        },
{
    if !error.stream_failure() {
        let (last, at, n) = choose|last: P, at: StreamState, n: nat|
            {
                &&& n <= parser.max_count()
                &&& #[trigger] repeat::repeats(parser.inner(), last, from, at, n)
                &&& if n == parser.max_count() {
                    repeat::expects_no_more(last, after.inner(), at, to, Some(error))
                } else {
                    &&& error.stream_failure()
                    &&& last.parses(after.inner(), at, to, Some(error))
                }
            };
        let (there, found) = choose|there: StreamState, found: Option<ParserError>|
            {
                &&& #[trigger] last.parses(after.inner(), at.marked(), there, found)
                &&& match found {
                    None => {
                        &&& is_lazy(Some(error), at.pos, ParserErrorKind::TooMany)
                        &&& there.resets(to, at.pos)
                    },
                    Some(e) => Some(error) == if e.stream_failure() {
                        found
                    } else {
                        None
                    },
                }
            };
        assert(repeat::repeats(parser.inner(), last, from, at, parser.max_count()));
        assert(last.parses(after.inner(), at.marked(), there, found));
    }
}

/// A parser that can be applied and stays where it is if it fails without the stream failing, that
/// moves forward within the text whenever it succeeds, and that keeps being so, can be repeated.
pub proof fn law_many_is_ready<S: Streamer, P: Parser<Input = S>>(
    parser: Many<P>,
    sound: spec_fn(P, StreamState) -> bool,
    from: StreamState,
)
    requires
        sound(parser.inner(), from),
        forall|p: P, at: StreamState| sound(p, at) ==> #[trigger] p.ready(at),
        forall|p: P, at: StreamState|
            sound(p, at) ==> #[trigger] recover::stays_unless_stream_fails(p, at),
        moves_on(sound, from.feed.text.len()),
    ensures
        parser.ready(from),
{
    let inner = parser.inner();
    let bound = from.feed.text.len();
    assert forall|last: P, at: StreamState, n: nat| #[trigger]
        repeat::repeats(inner, last, from, at, n) implies repeat::repeatable(last, at) && n
        <= bound by {
        lemma_repeats_sound(inner, last, sound, from, at, n, bound);
    }
    assert forall|last: P, at: StreamState, outputs: Seq<P::Output>| #[trigger]
        repeat::collects(inner, last, from, at, outputs) implies repeat::repeatable(last, at)
        && outputs.len() <= bound by {
        lemma_collects_sound(inner, last, sound, from, at, outputs, bound);
    }
    assert(repeat::ends_within(inner, from, bound));
}

/// Whether a sound parser moves forward whenever it succeeds, no further than to `limit`, and is
/// sound again.
pub open spec fn moves_on<P: Parser>(sound: spec_fn(P, StreamState) -> bool, limit: nat) -> bool {
    &&& forall|p: P, after: P, at: StreamState, to: StreamState| #[trigger]
        p.parses(after, at, to, None) && sound(p, at) ==> at.pos < to.pos <= limit && sound(
            after,
            to,
        )
    &&& forall|p: P, after: P, at: StreamState, to: StreamState, output: P::Output| #[trigger]
        p.gets(after, at, to, Ok(output)) && sound(p, at) ==> at.pos < to.pos <= limit && sound(
            after,
            to,
        )
}

proof fn lemma_repeats_sound<P: Parser>(
    parser: P,
    last: P,
    sound: spec_fn(P, StreamState) -> bool,
    from: StreamState,
    at: StreamState,
    n: nat,
    limit: nat,
)
    requires
        sound(parser, from),
        moves_on(sound, limit),
        repeat::repeats(parser, last, from, at, n),
    ensures
        sound(last, at),
        from.pos + n <= at.pos,
        n <= limit,
    decreases n,
{
    if n > 0 {
        let (before, start) = choose|before: P, start: StreamState|
            {
                &&& repeat::repeats(parser, before, from, start, (n - 1) as nat)
                &&& #[trigger] before.parses(last, start, at, None)
            };
        lemma_repeats_sound(parser, before, sound, from, start, (n - 1) as nat, limit);
    }
}

proof fn lemma_collects_sound<P: Parser>(
    parser: P,
    last: P,
    sound: spec_fn(P, StreamState) -> bool,
    from: StreamState,
    at: StreamState,
    outputs: Seq<P::Output>,
    limit: nat,
)
    requires
        sound(parser, from),
        moves_on(sound, limit),
        repeat::collects(parser, last, from, at, outputs),
    ensures
        sound(last, at),
        from.pos + outputs.len() <= at.pos,
        outputs.len() <= limit,
    decreases outputs.len(),
{
    if outputs.len() > 0 {
        let (before, start) = choose|before: P, start: StreamState|
            {
                &&& repeat::collects(parser, before, from, start, outputs.drop_last())
                &&& #[trigger] before.gets(last, start, at, Ok(outputs.last()))
            };
        lemma_collects_sound(parser, before, sound, from, start, outputs.drop_last(), limit);
    }
}

/// An attempted parser can be repeated if the parser itself can be applied and moves forward within
/// the text whenever it succeeds, and keeps being so.
pub proof fn law_many_attempts_is_ready<S: Streamer, P: Parser<Input = S>>(
    parser: Many<Attempt<P>>,
    sound: spec_fn(P, StreamState) -> bool,
    from: StreamState,
)
    requires
        sound(parser.inner().inner(), from),
        forall|p: P, at: StreamState| sound(p, at) ==> #[trigger] p.ready(at.marked()),
        forall|p: P, after: P, at: StreamState, there: StreamState| #[trigger]
            p.parses(after, at.marked(), there, None) && sound(p, at) ==> {
                &&& at.pos < there.pos <= from.feed.text.len()
                &&& sound(after, there.released(at.pos))
            },
        forall|p: P, after: P, at: StreamState, there: StreamState, output: P::Output| #[trigger]
            p.gets(after, at.marked(), there, Ok(output)) && sound(p, at) ==> {
                &&& at.pos < there.pos <= from.feed.text.len()
                &&& sound(after, there.released(at.pos))
            },
    ensures
        parser.ready(from),
{
    law_many_is_ready(parser, |p: Attempt<P>, at: StreamState| sound(p.inner(), at), from);
}

/// Whether all characters of `word` are in `class`.
pub open spec fn all_in(word: Seq<char>, class: spec_fn(char) -> bool) -> bool {
    forall|i: int| 0 <= i < word.len() ==> class(#[trigger] word[i])
}

/// A predicate parser can be repeated.
pub proof fn law_many_chars_is_ready<S: Streamer, F: FnMut(char) -> bool>(
    parser: Many<CharPred<S, F>>,
    class: spec_fn(char) -> bool,
    from: StreamState,
)
    requires
        parser.inner().accepts(class),
        from.fits(),
    ensures
        parser.ready(from),
{
    let inner = parser.inner();
    let sound = |p: CharPred<S, F>, at: StreamState|
        p == inner && at.fits() && at.feed == from.feed;
    assert forall|
        p: CharPred<S, F>,
        after: CharPred<S, F>,
        at: StreamState,
        to: StreamState,
    | #[trigger]
        p.parses(after, at, to, None) && sound(p, at) implies at.pos < to.pos
        <= from.feed.text.len() && sound(after, to) by {
        law_char_takes_one(p, class, after, at, to, None);
        text::lemma_boundary_next(at.feed.text, at.pos);
    }
    law_many_is_ready(parser, sound, from);
}

/// A repeated predicate parser takes the whole run of characters of its class, and gives them. On a
/// stream that nothing stops but the end of its text, it always succeeds.
pub proof fn law_many_chars_takes_run<S: Streamer, F: FnMut(char) -> bool>(
    parser: Many<CharPred<S, F>>,
    class: spec_fn(char) -> bool,
    after: Many<CharPred<S, F>>,
    from: StreamState,
    to: StreamState,
    error: Option<ParserError>,
)
    requires
        parser.inner().accepts(class),
        from.fits(),
        parser.parses(after, from, to, error),
    ensures
        after.inner() == parser.inner(),
        to.fits(),
        to.feed == from.feed,
        to.marks == from.marks,
        error is None && !from.feed.abrupt ==> to.pos == run_end(
            from.feed.text,
            class,
            from.pos,
        ),
        to.pos <= run_end(from.feed.text, class, from.pos),
        error is Some ==> !from.feed.steady(),
{
    let inner = parser.inner();
    let (last, at, n) = choose|last: CharPred<S, F>, at: StreamState, n: nat|
        {
            &&& #[trigger] repeat::repeats(inner, last, from, at, n)
            &&& match error {
                None => recover::gives_up(last, after.inner(), at, to),
                Some(e) => e.stream_failure() && last.parses(after.inner(), at, to, error),
            }
        };
    lemma_chars_repeat(inner, class, last, from, at, n);
    lemma_chars_stop(inner, class, after.inner(), at);
}

/// A repeated predicate parser gives the characters of the run that it takes. If the stream fails,
/// it keeps nothing of it.
pub proof fn law_many_chars_gives_run<S: Streamer, F: FnMut(char) -> bool>(
    parser: Many<CharPred<S, F>>,
    class: spec_fn(char) -> bool,
    after: Many<CharPred<S, F>>,
    from: StreamState,
    to: StreamState,
    r: Result<Vec<char>, ParserError>,
)
    requires
        parser.inner().accepts(class),
        from.fits(),
        parser.gets(after, from, to, r),
    ensures
        after.inner() == parser.inner(),
        to.marks == from.marks,
        r matches Ok(output) ==> {
            &&& text::spells(from.feed.text, from.pos, to.pos, output@)
            &&& all_in(output@, class)
            &&& !from.feed.abrupt ==> {
                &&& output@.len() == run_len(from.feed.text, class, from.pos)
                &&& to.pos == run_end(from.feed.text, class, from.pos)
            }
        },
        r is Err ==> !from.feed.steady(),
{
    let inner = parser.inner();
    let (last, at, outputs) = choose|last: CharPred<S, F>, at: StreamState, outputs: Seq<char>|
        {
            &&& #[trigger] repeat::collects(inner, last, from, at, outputs)
            &&& match r {
                Ok(output) => {
                    &&& output@ == outputs
                    &&& recover::get_gives_up(last, after.inner(), at, to)
                },
                Err(e) => {
                    &&& e.stream_failure()
                    &&& exists|there: StreamState|
                        {
                            &&& #[trigger] last.gets(after.inner(), at, there, Err(e))
                            &&& to == there.with_marks(from.marks)
                        }
                },
            }
        };
    lemma_chars_collect(inner, class, last, from, at, outputs);
    lemma_chars_stop(inner, class, after.inner(), at);
}

/// A predicate parser can be repeated up to a number of times.
pub proof fn law_many_max_chars_is_ready<S: Streamer, F: FnMut(char) -> bool>(
    parser: ManyMax<CharPred<S, F>>,
    class: spec_fn(char) -> bool,
    from: StreamState,
)
    requires
        parser.inner().accepts(class),
        from.fits(),
    ensures
        parser.ready(from),
{
    let inner = parser.inner();
    assert forall|last: CharPred<S, F>, at: StreamState, n: nat| #[trigger]
        repeat::repeats(inner, last, from, at, n) implies last == inner by {
        lemma_chars_repeat(inner, class, last, from, at, n);
    }
    assert forall|last: CharPred<S, F>, at: StreamState, outputs: Seq<char>| #[trigger]
        repeat::collects(inner, last, from, at, outputs) implies last == inner by {
        lemma_chars_collect(inner, class, last, from, at, outputs);
    }
}

/// A predicate parser that is repeated up to a number of times takes the whole run of characters of
/// its class if the run has no more characters than that. Otherwise it fails with
/// `ParserErrorKind::TooMany`, unless the stream fails.
pub proof fn law_many_max_chars_takes_short_run<S: Streamer, F: FnMut(char) -> bool>(
    parser: ManyMax<CharPred<S, F>>,
    class: spec_fn(char) -> bool,
    after: ManyMax<CharPred<S, F>>,
    from: StreamState,
    to: StreamState,
    error: Option<ParserError>,
)
    requires
        parser.inner().accepts(class),
        from.fits(),
        parser.parses(after, from, to, error),
    ensures
        after.inner() == parser.inner(),
        error is None && !from.feed.abrupt ==> {
            &&& run_len(from.feed.text, class, from.pos) <= parser.max_count()
            &&& to.pos == run_end(from.feed.text, class, from.pos)
        },
        error matches Some(ParserError::Lazy(_, ParserErrorKind::TooMany)) ==> run_len(
            from.feed.text,
            class,
            from.pos,
        ) > parser.max_count(),
        from.feed.steady() && error is Some ==> is_lazy(
            error,
            to.pos,
            ParserErrorKind::TooMany,
        ),
{
    let inner = parser.inner();
    let (last, at, n) = choose|last: CharPred<S, F>, at: StreamState, n: nat|
        {
            &&& n <= parser.max_count()
            &&& #[trigger] repeat::repeats(inner, last, from, at, n)
            &&& if n == parser.max_count() {
                repeat::expects_no_more(last, after.inner(), at, to, error)
            } else {
                match error {
                    None => recover::gives_up(last, after.inner(), at, to),
                    Some(e) => e.stream_failure() && last.parses(after.inner(), at, to, error),
                }
            }
        };
    lemma_chars_repeat(inner, class, last, from, at, n);
    if n < parser.max_count() {
        lemma_chars_stop(inner, class, after.inner(), at);
    } else {
        lemma_chars_no_more(inner, class, after.inner(), at, to, error);
    }
}

/// A predicate parser that is repeated up to a number of times gives the characters of the run that
/// it takes.
pub proof fn law_many_max_chars_gives_short_run<S: Streamer, F: FnMut(char) -> bool>(
    parser: ManyMax<CharPred<S, F>>,
    class: spec_fn(char) -> bool,
    after: ManyMax<CharPred<S, F>>,
    from: StreamState,
    to: StreamState,
    r: Result<Vec<char>, ParserError>,
)
    requires
        parser.inner().accepts(class),
        from.fits(),
        parser.gets(after, from, to, r),
    ensures
        after.inner() == parser.inner(),
        r matches Ok(output) ==> {
            &&& output@.len() <= parser.max_count()
            &&& text::spells(from.feed.text, from.pos, to.pos, output@)
            &&& all_in(output@, class)
            &&& !from.feed.abrupt ==> {
                &&& output@.len() == run_len(from.feed.text, class, from.pos)
                &&& to.pos == run_end(from.feed.text, class, from.pos)
            }
        },
        r matches Err(ParserError::Lazy(_, ParserErrorKind::TooMany)) ==> run_len(
            from.feed.text,
            class,
            from.pos,
        ) > parser.max_count(),
        from.feed.steady() && r is Err ==> is_lazy(
            parser::failure(r),
            to.pos,
            ParserErrorKind::TooMany,
        ),
{
    let inner = parser.inner();
    let (last, at, there, outputs) = choose|
        last: CharPred<S, F>,
        at: StreamState,
        there: StreamState,
        outputs: Seq<char>,
    |
        {
            &&& outputs.len() <= parser.max_count()
            &&& #[trigger] repeat::collects(inner, last, from, at, outputs)
            &&& #[trigger] parser.stops(after, last, at, there, outputs, r)
            &&& match r {
                Ok(output) => output@ == outputs && to == there,
                Err(_) => to == there.with_marks(from.marks),
            }
        };
    lemma_chars_collect(inner, class, last, from, at, outputs);
    if outputs.len() < parser.max_count() {
        lemma_chars_stop(inner, class, after.inner(), at);
    } else {
        lemma_chars_no_more(
            inner,
            class,
            after.inner(),
            at,
            there,
            parser::failure(r),
        );
    }
}

/// An attempt keeps its text from where it started, so that a run which does not end before the
/// text does needs room for all of it and a chunk: on a stream with room for one chunk, which is at
/// the beginning of its text, it finds that the buffer is full, and goes back.
pub proof fn law_attempted_run_needs_room<S: Streamer, F: FnMut(char) -> bool>(
    parser: Attempt<Many<CharPred<S, F>>>,
    class: spec_fn(char) -> bool,
    after: Attempt<Many<CharPred<S, F>>>,
    from: StreamState,
    to: StreamState,
    error: Option<ParserError>,
)
    requires
        parser.inner().inner().accepts(class),
        from.fits(),
        !from.feed.malformed && !from.feed.faulty,
        from.feed.room == from.feed.chunk,
        from.pos == from.base == from.fetched < from.feed.text.len(),
        from.end is None,
        forall|at: nat|
            at < from.feed.text.len() && #[trigger] text::is_boundary(from.feed.text, at) ==> class(
                text::char_at(from.feed.text, at),
            ),
        parser.parses(after, from, to, error),
    ensures
        error matches Some(ParserError::Lazy(_, ParserErrorKind::BufferFull)),
        to.pos == from.pos,
        to.marks == from.marks,
{
    let inner = parser.inner().inner();
    let start = from.marked();
    let there = choose|there: StreamState|
        {
            &&& #[trigger] parser.inner().parses(after.inner(), start, there, error)
            &&& if error is Some {
                there.resets(to, from.pos)
            } else {
                to == there.released(from.pos)
            }
        };
    let (last, at, n) = choose|last: CharPred<S, F>, at: StreamState, n: nat|
        {
            &&& #[trigger] repeat::repeats(inner, last, start, at, n)
            &&& match error {
                None => recover::gives_up(last, after.inner().inner(), at, there),
                Some(e) => {
                    &&& e.stream_failure()
                    &&& last.parses(after.inner().inner(), at, there, error)
                },
            }
        };
    lemma_chars_repeat(inner, class, last, start, at, n);
    assert(at.marks.count(from.pos) > 0);
    assert(from.marks.insert(from.pos).remove(from.pos) =~= from.marks);
    assert(text::is_boundary(at.feed.text, at.pos));
    if at.pos == from.pos {
        assert(forall|mark: nat| #[trigger] start.marks.count(mark) > 0 ==> mark >= from.base);
    }
}

/// What is left of a run after some of its characters.
proof fn lemma_chars_repeat<S: Streamer, F: FnMut(char) -> bool>(
    parser: CharPred<S, F>,
    class: spec_fn(char) -> bool,
    last: CharPred<S, F>,
    from: StreamState,
    at: StreamState,
    n: nat,
)
    requires
        parser.accepts(class),
        from.fits(),
        repeat::repeats(parser, last, from, at, n),
    ensures
        last == parser,
        at.fits(),
        at.feed == from.feed,
        at.marks == from.marks,
        from.end is None ==> at.end is None,
        n == 0 ==> at == from,
        n > 0 ==> from.pos < at.pos,
        run_end(from.feed.text, class, from.pos) == run_end(from.feed.text, class, at.pos),
        run_len(from.feed.text, class, from.pos) == n + run_len(
            from.feed.text,
            class,
            at.pos,
        ),
        at.pos <= run_end(from.feed.text, class, from.pos),
    decreases n,
{
    let text = from.feed.text;
    if n > 0 {
        let (before, start) = choose|before: CharPred<S, F>, start: StreamState|
            {
                &&& repeat::repeats(parser, before, from, start, (n - 1) as nat)
                &&& #[trigger] before.parses(last, start, at, None)
            };
        lemma_chars_repeat(parser, class, before, from, start, (n - 1) as nat);
        law_char_takes_one(before, class, last, start, at, None);
        text::lemma_boundary_next(text, start.pos);
    }
    lemma_run_end_bound(text, class, at.pos);
}

/// A predicate parser that fails does so at the end of a run, unless the stream fails.
proof fn lemma_chars_stop<S: Streamer, F: FnMut(char) -> bool>(
    parser: CharPred<S, F>,
    class: spec_fn(char) -> bool,
    after: CharPred<S, F>,
    from: StreamState,
)
    requires
        parser.accepts(class),
        from.fits(),
    ensures
        forall|there: StreamState, error: ParserError| #[trigger]
            parser.parses(after, from, there, Some(error)) ==> {
                &&& after == parser
                &&& there.fits()
                &&& there.feed == from.feed
                &&& there.pos == from.pos
                &&& there.marks == from.marks
                &&& error.stream_failure() ==> !from.feed.steady()
                &&& error matches ParserError::Lazy(_, kind) && kind !is TooMany
                &&& !error.stream_failure() && !from.feed.abrupt ==> {
                    &&& run_end(from.feed.text, class, from.pos) == from.pos
                    &&& run_len(from.feed.text, class, from.pos) == 0
                }
            },
        forall|there: StreamState, error: ParserError| #[trigger]
            parser.gets(after, from, there, Err(error)) ==> parser.parses(
                after,
                from,
                there,
                Some(error),
            ),
{
    let text = from.feed.text;
    assert forall|there: StreamState, error: ParserError| #[trigger]
        parser.parses(after, from, there, Some(error)) && !error.stream_failure()
            && !from.feed.abrupt implies run_end(text, class, from.pos) == from.pos && run_len(
        text,
        class,
        from.pos,
    ) == 0 by {
        law_char_takes_one(parser, class, after, from, there, Some(error));
    }
}

/// A predicate parser finds one character too many only within a run.
proof fn lemma_chars_no_more<S: Streamer, F: FnMut(char) -> bool>(
    parser: CharPred<S, F>,
    class: spec_fn(char) -> bool,
    after: CharPred<S, F>,
    from: StreamState,
    to: StreamState,
    error: Option<ParserError>,
)
    requires
        parser.accepts(class),
        from.fits(),
        repeat::expects_no_more(parser, after, from, to, error),
    ensures
        after == parser,
        to.pos == from.pos,
        error is None && !from.feed.abrupt ==> {
            &&& run_end(from.feed.text, class, from.pos) == from.pos
            &&& run_len(from.feed.text, class, from.pos) == 0
        },
        error matches Some(ParserError::Lazy(_, ParserErrorKind::TooMany)) ==> run_len(
            from.feed.text,
            class,
            from.pos,
        ) > 0,
        from.feed.steady() && error is Some ==> is_lazy(
            error,
            from.pos,
            ParserErrorKind::TooMany,
        ),
{
    let marked = from.marked();
    let (there, found) = choose|there: StreamState, found: Option<ParserError>|
        {
            &&& #[trigger] parser.parses(after, marked, there, found)
            &&& match found {
                None => {
                    &&& is_lazy(error, from.pos, ParserErrorKind::TooMany)
                    &&& there.resets(to, from.pos)
                },
                Some(e) => {
                    &&& error == if e.stream_failure() {
                        found
                    } else {
                        None
                    }
                    &&& to == there.released(from.pos)
                },
            }
        };
    lemma_chars_stop(parser, class, after, marked);
    law_char_takes_one(parser, class, after, marked, there, found);
    if found is None {
        text::lemma_boundary_next(from.feed.text, from.pos);
    }
}

proof fn lemma_run_end_bound(text: Seq<u8>, class: spec_fn(char) -> bool, from: nat)
    ensures
        from <= run_end(text, class, from),
    decreases text.len() - from,
{
    let width = text::width_at(text, from);
    if width > 0 && from + width <= text.len() && class(text::char_at(text, from)) {
        lemma_run_end_bound(text, class, from + width);
    }
}

/// The outputs of a repeated predicate parser.
proof fn lemma_chars_collect<S: Streamer, F: FnMut(char) -> bool>(
    parser: CharPred<S, F>,
    class: spec_fn(char) -> bool,
    last: CharPred<S, F>,
    from: StreamState,
    to: StreamState,
    outputs: Seq<char>,
)
    requires
        parser.accepts(class),
        from.fits(),
        repeat::collects(parser, last, from, to, outputs),
    ensures
        last == parser,
        to.fits(),
        to.feed == from.feed,
        to.marks == from.marks,
        text::spells(from.feed.text, from.pos, to.pos, outputs),
        all_in(outputs, class),
        run_end(from.feed.text, class, from.pos) == run_end(from.feed.text, class, to.pos),
        run_len(from.feed.text, class, from.pos) == outputs.len() + run_len(
            from.feed.text,
            class,
            to.pos,
        ),
    decreases outputs.len(),
{
    let text = from.feed.text;
    if outputs.len() == 0 {
        assert(text.subrange(from.pos as int, to.pos as int) =~= encode_utf8(outputs));
    } else {
        let (before, start) = choose|before: CharPred<S, F>, start: StreamState|
            {
                &&& repeat::collects(parser, before, from, start, outputs.drop_last())
                &&& #[trigger] before.gets(last, start, to, Ok(outputs.last()))
            };
        lemma_chars_collect(parser, class, before, from, start, outputs.drop_last());
        law_char_takes_one(before, class, last, start, to, None);
        text::lemma_boundary_next(text, start.pos);
        text::lemma_spells_push(text, from.pos, start.pos, outputs.drop_last());
        assert(outputs.drop_last().push(outputs.last()) =~= outputs);
        assert forall|i: int| 0 <= i < outputs.len() implies class(#[trigger] outputs[i]) by {
            if i < outputs.len() - 1 {
                assert(outputs.drop_last()[i] == outputs[i]);
            }
        }
    }
}

/// A tuple of one parser does what the parser does.
pub proof fn law_tuple_of_one<A: Parser>(
    parser: (A,),
    after: (A,),
    from: StreamState,
    to: StreamState,
    error: Option<ParserError>,
)
    ensures
        parser.parses(after, from, to, error) <==> parser.0.parses(after.0, from, to, error),
{
    assert(sequence::route(seq![from, to], 0, 1, from, to, error));
}

/// A tuple of two parsers applies the second one where the first one succeeded.
pub proof fn law_tuple_of_two<A: Parser, B: Parser<Input = A::Input>>(
    parser: (A, B),
    after: (A, B),
    from: StreamState,
    to: StreamState,
    error: Option<ParserError>,
)
    ensures
        parser.parses(after, from, to, error) <==> {
            ||| error is Some && parser.0.parses(after.0, from, to, error) && after.1 == parser.1
            ||| exists|at: StreamState|
                {
                    &&& #[trigger] parser.0.parses(after.0, from, at, None)
                    &&& parser.1.parses(after.1, at, to, error)
                }
        },
{
    if parser.parses(after, from, to, error) {
        let (at, last) = choose|at: Seq<StreamState>, last: int|
            {
                &&& #[trigger] sequence::route(at, last, 2, from, to, error)
                &&& sequence::step(parser.0, after.0, at[0], at[1], 0, last, error)
                &&& sequence::step(parser.1, after.1, at[1], at[2], 1, last, error)
            };
        if last == 1 {
            assert(parser.0.parses(after.0, from, at[1], None));
        }
    }
    assert(error is Some ==> sequence::route(seq![from, to], 0, 2, from, to, error));
    assert forall|at: StreamState|
        {
            &&& #[trigger] parser.0.parses(after.0, from, at, None)
            &&& parser.1.parses(after.1, at, to, error)
        } implies parser.parses(after, from, to, error) by {
        assert(sequence::route(seq![from, at, to], 1, 2, from, to, error));
    }
}

/// A tuple of two parsers gives the outputs of both, and the second one is applied while the output
/// of the first one keeps what it holds. If the second one fails, the output of the first one gives
/// that back.
pub proof fn law_tuple_of_two_gives_both<A: Parser, B: Parser<Input = A::Input>>(
    parser: (A, B),
    after: (A, B),
    from: StreamState,
    to: StreamState,
    r: Result<(A::Output, B::Output), ParserError>,
)
    requires
        parser.gets(after, from, to, r),
    ensures
        match r {
            Ok(output) => exists|at: StreamState|
                {
                    &&& #[trigger] parser.0.gets(after.0, from, at, Ok(output.0))
                    &&& parser.1.gets(after.1, at, to, Ok(output.1))
                },
            Err(error) => {
                ||| after.1 == parser.1 && exists|at: StreamState|
                    {
                        &&& #[trigger] parser.0.gets(after.0, from, at, Err(error))
                        &&& to == at.with_marks(from.marks)
                    }
                ||| exists|at: StreamState, there: StreamState, output: A::Output|
                    {
                        &&& #[trigger] parser.0.gets(after.0, from, at, Ok(output))
                        &&& #[trigger] parser.1.gets(after.1, at, there, Err(error))
                        &&& to == there.with_marks(from.marks)
                    }
            },
        },
{
    match r {
        Ok(output) => {
            let at = choose|at: Seq<StreamState>|
                {
                    &&& #[trigger] sequence::route(at, 1, 2, from, to, None)
                    &&& parser.0.gets(after.0, at[0], at[1], Ok(output.0))
                    &&& parser.1.gets(after.1, at[1], at[2], Ok(output.1))
                };
            assert(parser.0.gets(after.0, from, at[1], Ok(output.0)));
        },
        Err(error) => {
            let (at, last) = choose|at: Seq<StreamState>, last: int|
                {
                    &&& #[trigger] sequence::undone(at, last, 2, from, to)
                    &&& sequence::tries(parser.0, after.0, at[0], at[1], 0, last, error)
                    &&& sequence::tries(parser.1, after.1, at[1], at[2], 1, last, error)
                };
            if last == 0 {
                assert(parser.0.gets(after.0, from, at[1], Err(error)));
            } else {
                assert(parser.1.gets(after.1, at[1], at[2], Err(error)));
            }
        },
    }
}

/// A tuple of three parsers does what the first one and then a tuple of the two others does.
pub proof fn law_tuple_of_three<
    A: Parser,
    B: Parser<Input = A::Input>,
    C: Parser<Input = A::Input>,
>(
    parser: (A, B, C),
    after: (A, B, C),
    from: StreamState,
    to: StreamState,
    error: Option<ParserError>,
)
    ensures
        parser.parses(after, from, to, error) <==> (parser.0, (parser.1, parser.2)).parses(
            (after.0, (after.1, after.2)),
            from,
            to,
            error,
        ),
{
    let (pair, pair_after) = ((parser.1, parser.2), (after.1, after.2));
    let (nested, nested_after) = ((parser.0, pair), (after.0, pair_after));
    law_tuple_of_two(nested, nested_after, from, to, error);
    if parser.parses(after, from, to, error) {
        let (at, last) = choose|at: Seq<StreamState>, last: int|
            {
                &&& #[trigger] sequence::route(at, last, 3, from, to, error)
                &&& sequence::step(parser.0, after.0, at[0], at[1], 0, last, error)
                &&& sequence::step(parser.1, after.1, at[1], at[2], 1, last, error)
                &&& sequence::step(parser.2, after.2, at[2], at[3], 2, last, error)
            };
        if last == 0 {
            assert(pair_after == pair);
        } else {
            law_tuple_of_two(pair, pair_after, at[1], to, error);
            assert(parser.0.parses(after.0, from, at[1], None));
            if last == 1 {
                assert(parser.1.parses(after.1, at[1], to, error));
                assert(pair_after.1 == pair.1);
            } else {
                assert(parser.1.parses(after.1, at[1], at[2], None));
                assert(parser.2.parses(after.2, at[2], to, error));
            }
            assert(pair.parses(pair_after, at[1], to, error));
        }
        assert(nested.parses(nested_after, from, to, error));
    }
    if nested.parses(nested_after, from, to, error) {
        if error is Some && parser.0.parses(after.0, from, to, error) && pair_after == pair {
            assert(sequence::route(seq![from, to], 0, 3, from, to, error));
        } else {
            let at = choose|at: StreamState|
                {
                    &&& #[trigger] parser.0.parses(after.0, from, at, None)
                    &&& pair.parses(pair_after, at, to, error)
                };
            law_tuple_of_two(pair, pair_after, at, to, error);
            if error is Some && parser.1.parses(after.1, at, to, error) && after.2 == parser.2 {
                assert(sequence::route(seq![from, at, to], 1, 3, from, to, error));
            } else {
                let next = choose|next: StreamState|
                    {
                        &&& #[trigger] parser.1.parses(after.1, at, next, None)
                        &&& parser.2.parses(after.2, next, to, error)
                    };
                assert(sequence::route(seq![from, at, next, to], 2, 3, from, to, error));
            }
        }
        assert(parser.parses(after, from, to, error));
    }
}

/// A choice of one parser does what the parser does, but that a mismatch leaves the stream where it
/// is.
pub proof fn law_choice_of_one<A: Parser>(
    parser: Choice<(A,)>,
    after: Choice<(A,)>,
    from: StreamState,
    to: StreamState,
    error: Option<ParserError>,
)
    ensures
        parser.parses(after, from, to, error) <==> {
            &&& parser.alternatives().0.parses(after.alternatives().0, from, to, error)
            &&& recover::is_mismatch(error) ==> to.pos == from.pos
        },
{
    if recover::is_mismatch(error) ==> to.pos == from.pos {
        assert(choice::decides(seq![from, to], 0, 1, from, to, error));
    }
}

/// A choice of two parsers does what the first one does unless the input does not match, and what
/// the second one does from there on otherwise.
pub proof fn law_choice_of_two<A: Parser, B: Parser<Input = A::Input, Output = A::Output>>(
    parser: Choice<(A, B)>,
    after: Choice<(A, B)>,
    from: StreamState,
    to: StreamState,
    error: Option<ParserError>,
)
    ensures
        parser.parses(after, from, to, error) <==> {
            let (a, b) = parser.alternatives();
            let (a_after, b_after) = after.alternatives();
            ||| !recover::is_mismatch(error) && a.parses(a_after, from, to, error) && b_after == b
            ||| exists|at: StreamState|
                {
                    &&& #[trigger] recover::mismatches(a, a_after, from, at)
                    &&& b.parses(b_after, at, to, error)
                    &&& recover::is_mismatch(error) ==> to.pos == from.pos
                }
        },
{
    let (a, b) = parser.alternatives();
    let (a_after, b_after) = after.alternatives();
    if parser.parses(after, from, to, error) {
        let (at, last) = choose|at: Seq<StreamState>, last: int|
            {
                &&& #[trigger] choice::decides(at, last, 2, from, to, error)
                &&& choice::tried(a, a_after, at[0], at[1], 0, last, error)
                &&& choice::tried(b, b_after, at[1], at[2], 1, last, error)
            };
        if last == 1 {
            assert(recover::mismatches(a, a_after, from, at[1]));
        }
    }
    if !recover::is_mismatch(error) {
        assert(choice::decides(seq![from, to], 0, 2, from, to, error));
    }
    assert forall|at: StreamState|
        {
            &&& #[trigger] recover::mismatches(a, a_after, from, at)
            &&& b.parses(b_after, at, to, error)
            &&& recover::is_mismatch(error) ==> to.pos == from.pos
        } implies parser.parses(after, from, to, error) by {
        assert(choice::decides(seq![from, at, to], 1, 2, from, to, error));
    }
}

/// A choice of two parsers finds a mismatch only where both do, and stays there.
pub proof fn law_choice_mismatches_only_if_all_do<
    A: Parser,
    B: Parser<Input = A::Input, Output = A::Output>,
>(
    parser: Choice<(A, B)>,
    after: Choice<(A, B)>,
    from: StreamState,
    to: StreamState,
    error: Option<ParserError>,
)
    requires
        parser.parses(after, from, to, error),
        recover::is_mismatch(error),
    ensures
        to.pos == from.pos,
        exists|at: StreamState|
            {
                &&& #[trigger] recover::mismatches(
                    parser.alternatives().0,
                    after.alternatives().0,
                    from,
                    at,
                )
                &&& recover::mismatches(parser.alternatives().1, after.alternatives().1, at, to)
            },
{
    law_choice_of_two(parser, after, from, to, error);
    let at = choose|at: StreamState|
        {
            &&& #[trigger] recover::mismatches(
                parser.alternatives().0,
                after.alternatives().0,
                from,
                at,
            )
            &&& parser.alternatives().1.parses(after.alternatives().1, at, to, error)
        };
    assert(parser.alternatives().1.parses(after.alternatives().1, at, to, Some(error->0)));
}

/// A choice stays where it is on a mismatch, so that choices can be nested, repeated and optional.
pub proof fn law_choice_stays<A: Parser, B: Parser<Input = A::Input, Output = A::Output>>(
    parser: Choice<(A, B)>,
    from: StreamState,
)
    ensures
        recover::stays(parser, from),
{
}

/// Whether `get` acts like `parse`, and neither keeps anything of the text, whatever the state of
/// the parser and of the stream.
pub open spec fn acts_alike<P: Parser>() -> bool {
    &&& keeps_nothing::<P>()
    &&& forall|
        p: P,
        after: P,
        from: StreamState,
        to: StreamState,
        r: Result<P::Output, ParserError>,
    | #[trigger]
        p.gets(after, from, to, r) ==> {
            &&& to.marks == from.marks
            &&& p.parses(after, from, to, parser::failure(r))
        }
}

/// Whether `parse` keeps nothing of the text.
pub open spec fn keeps_nothing<P: Parser>() -> bool {
    forall|
        p: P,
        after: P,
        from: StreamState,
        to: StreamState,
        error: Option<ParserError>,
    | #[trigger]
        p.parses(after, from, to, error) ==> to.marks == from.marks
}

/// The parsers of a character and of the end of the input act alike whether their output is asked
/// for or not.
pub proof fn law_basic_parsers_act_alike<S: Streamer, F: FnMut(char) -> bool>()
    ensures
        acts_alike::<CharPred<S, F>>(),
        acts_alike::<Eof<S>>(),
{
}

/// If a parser acts alike whether its output is asked for or not, so it does when it is attempted
/// or optional.
pub proof fn law_recovering_parsers_act_alike<S: Streamer, P: Parser<Input = S>>()
    requires
        acts_alike::<P>(),
    ensures
        acts_alike::<Attempt<P>>(),
        acts_alike::<Maybe<P>>(),
{
    assert forall|
        p: Attempt<P>,
        after: Attempt<P>,
        from: StreamState,
        to: StreamState,
        error: Option<ParserError>,
    | #[trigger]
        p.parses(after, from, to, error) implies to.marks == from.marks by {
        assert(from.marks.insert(from.pos).remove(from.pos) =~= from.marks);
    }
    assert(keeps_nothing::<Maybe<P>>());
    assert forall|
        p: Attempt<P>,
        after: Attempt<P>,
        from: StreamState,
        to: StreamState,
        r: Result<P::Output, ParserError>,
    | #[trigger]
        p.gets(after, from, to, r) implies to.marks == from.marks && p.parses(
        after,
        from,
        to,
        parser::failure(r),
    ) by {
        assert(from.marks.insert(from.pos).remove(from.pos) =~= from.marks);
        let there = choose|there: StreamState|
            {
                &&& #[trigger] p.inner().gets(after.inner(), from.marked(), there, r)
                &&& if r is Err {
                    there.resets(to, from.pos)
                } else {
                    to == there.released(from.pos)
                }
            };
        assert(p.inner().parses(after.inner(), from.marked(), there, parser::failure(r)));
    }
    assert forall|
        p: Maybe<P>,
        after: Maybe<P>,
        from: StreamState,
        to: StreamState,
        r: Result<Option<P::Output>, ParserError>,
    | #[trigger]
        p.gets(after, from, to, r) implies to.marks == from.marks && p.parses(
        after,
        from,
        to,
        parser::failure(r),
    ) by {
        match r {
            Ok(Some(output)) => {
                assert(p.inner().gets(after.inner(), from, to, Ok(output)));
            },
            Ok(None) => {
                let error = choose|error: ParserError| #[trigger]
                    p.inner().gets(after.inner(), from, to, Err(error)) && error.mismatch();
                assert(p.inner().parses(after.inner(), from, to, Some(error)));
                assert(recover::mismatches(p.inner(), after.inner(), from, to));
            },
            Err(e) => {
                assert(p.inner().gets(after.inner(), from, to, Err(e)));
            },
        }
    }
}

/// If a parser acts alike whether its output is asked for or not, so it does when it is repeated.
pub proof fn law_repeated_parsers_act_alike<S: Streamer, P: Parser<Input = S>>()
    requires
        acts_alike::<P>(),
    ensures
        acts_alike::<Many<P>>(),
        acts_alike::<ManyMax<P>>(),
{
    assert forall|
        parser: P,
        last: P,
        from: StreamState,
        at: StreamState,
        n: nat,
    | #[trigger]
        repeat::repeats(parser, last, from, at, n) implies at.marks == from.marks by {
        lemma_repeats_keeps_nothing(parser, last, from, at, n);
    }
    assert forall|
        parser: P,
        after: P,
        from: StreamState,
        to: StreamState,
        error: Option<ParserError>,
    | #[trigger]
        repeat::expects_no_more(parser, after, from, to, error) implies to.marks == from.marks by {
        assert(from.marks.insert(from.pos).remove(from.pos) =~= from.marks);
    }
    assert(keeps_nothing::<Many<P>>());
    assert(keeps_nothing::<ManyMax<P>>());
    assert forall|
        p: Many<P>,
        after: Many<P>,
        from: StreamState,
        to: StreamState,
        r: Result<Vec<P::Output>, ParserError>,
    | #[trigger]
        p.gets(after, from, to, r) implies to.marks == from.marks && p.parses(
        after,
        from,
        to,
        parser::failure(r),
    ) by {
        let (last, at, outputs) = choose|last: P, at: StreamState, outputs: Seq<P::Output>|
            {
                &&& #[trigger] repeat::collects(p.inner(), last, from, at, outputs)
                &&& match r {
                    Ok(output) => recover::get_gives_up(last, after.inner(), at, to),
                    Err(e) => {
                        &&& e.stream_failure()
                        &&& exists|there: StreamState|
                            {
                                &&& #[trigger] last.gets(after.inner(), at, there, Err(e))
                                &&& to == there.with_marks(from.marks)
                            }
                    },
                }
            };
        lemma_collects_repeats(p.inner(), last, from, at, outputs);
        lemma_gives_up_alike(last, after.inner(), at, to);
        if let Err(e) = r {
            let there = choose|there: StreamState|
                {
                    &&& #[trigger] last.gets(after.inner(), at, there, Err(e))
                    &&& to == there.with_marks(from.marks)
                };
            assert(to == there);
        }
        assert(repeat::repeats(p.inner(), last, from, at, outputs.len()));
    }
    assert forall|
        p: ManyMax<P>,
        after: ManyMax<P>,
        from: StreamState,
        to: StreamState,
        r: Result<Vec<P::Output>, ParserError>,
    | #[trigger]
        p.gets(after, from, to, r) implies to.marks == from.marks && p.parses(
        after,
        from,
        to,
        parser::failure(r),
    ) by {
        let (last, at, there, outputs) = choose|
            last: P,
            at: StreamState,
            there: StreamState,
            outputs: Seq<P::Output>,
        |
            {
                &&& outputs.len() <= p.max_count()
                &&& #[trigger] repeat::collects(p.inner(), last, from, at, outputs)
                &&& #[trigger] p.stops(after, last, at, there, outputs, r)
                &&& match r {
                    Ok(output) => output@ == outputs && to == there,
                    Err(_) => to == there.with_marks(from.marks),
                }
            };
        lemma_collects_repeats(p.inner(), last, from, at, outputs);
        lemma_gives_up_alike(last, after.inner(), at, there);
        assert(repeat::repeats(p.inner(), last, from, at, outputs.len()));
    }
}

proof fn lemma_repeats_keeps_nothing<P: Parser>(
    parser: P,
    last: P,
    from: StreamState,
    at: StreamState,
    n: nat,
)
    requires
        keeps_nothing::<P>(),
        repeat::repeats(parser, last, from, at, n),
    ensures
        at.marks == from.marks,
    decreases n,
{
    if n > 0 {
        let (before, start) = choose|before: P, start: StreamState|
            {
                &&& repeat::repeats(parser, before, from, start, (n - 1) as nat)
                &&& #[trigger] before.parses(last, start, at, None)
            };
        lemma_repeats_keeps_nothing(parser, before, from, start, (n - 1) as nat);
    }
}

proof fn lemma_gives_up_alike<P: Parser>(
    parser: P,
    after: P,
    from: StreamState,
    to: StreamState,
)
    requires
        acts_alike::<P>(),
    ensures
        recover::get_gives_up(parser, after, from, to) ==> {
            &&& to.marks == from.marks
            &&& recover::gives_up(parser, after, from, to)
        },
{
    if recover::get_gives_up(parser, after, from, to) {
        let error = choose|error: ParserError| #[trigger]
            parser.gets(after, from, to, Err(error)) && !error.stream_failure();
        assert(parser.parses(after, from, to, Some(error)));
    }
}

proof fn lemma_collects_repeats<P: Parser>(
    parser: P,
    last: P,
    from: StreamState,
    at: StreamState,
    outputs: Seq<P::Output>,
)
    requires
        acts_alike::<P>(),
        repeat::collects(parser, last, from, at, outputs),
    ensures
        repeat::repeats(parser, last, from, at, outputs.len()),
        at.marks == from.marks,
    decreases outputs.len(),
{
    if outputs.len() > 0 {
        let (before, start) = choose|before: P, start: StreamState|
            {
                &&& repeat::collects(parser, before, from, start, outputs.drop_last())
                &&& #[trigger] before.gets(last, start, at, Ok(outputs.last()))
            };
        lemma_collects_repeats(parser, before, from, start, outputs.drop_last());
        let n = outputs.drop_last().len();
        repeat::lemma_repeats_push(parser, before, last, from, start, at, n);
    }
}

/// If two parsers act alike whether their output is asked for or not, so do a tuple of them and a
/// choice between them.
pub proof fn law_combined_parsers_act_alike<
    A: Parser,
    B: Parser<Input = A::Input>,
    C: Parser<Input = A::Input, Output = A::Output>,
>()
    requires
        acts_alike::<A>(),
        acts_alike::<B>(),
        acts_alike::<C>(),
    ensures
        acts_alike::<(A, B)>(),
        acts_alike::<Choice<(A, C)>>(),
{
    assert forall|
        p: (A, B),
        after: (A, B),
        from: StreamState,
        to: StreamState,
        error: Option<ParserError>,
    | #[trigger]
        p.parses(after, from, to, error) implies to.marks == from.marks by {
        law_tuple_of_two(p, after, from, to, error);
    }
    assert forall|
        p: Choice<(A, C)>,
        after: Choice<(A, C)>,
        from: StreamState,
        to: StreamState,
        error: Option<ParserError>,
    | #[trigger]
        p.parses(after, from, to, error) implies to.marks == from.marks by {
        law_choice_of_two(p, after, from, to, error);
    }
    assert forall|
        p: (A, B),
        after: (A, B),
        from: StreamState,
        to: StreamState,
        r: Result<(A::Output, B::Output), ParserError>,
    | #[trigger]
        p.gets(after, from, to, r) implies to.marks == from.marks && p.parses(
        after,
        from,
        to,
        parser::failure(r),
    ) by {
        law_tuple_of_two_gives_both(p, after, from, to, r);
        law_tuple_of_two(p, after, from, to, parser::failure(r));
        if let Err(error) = r {
            if after.1 == p.1 && exists|at: StreamState|
                {
                    &&& #[trigger] p.0.gets(after.0, from, at, Err(error))
                    &&& to == at.with_marks(from.marks)
                } {
                let at = choose|at: StreamState|
                    {
                        &&& #[trigger] p.0.gets(after.0, from, at, Err(error))
                        &&& to == at.with_marks(from.marks)
                    };
                assert(to == at);
            } else {
                let (at, there, output) = choose|
                    at: StreamState,
                    there: StreamState,
                    output: A::Output,
                |
                    {
                        &&& #[trigger] p.0.gets(after.0, from, at, Ok(output))
                        &&& #[trigger] p.1.gets(after.1, at, there, Err(error))
                        &&& to == there.with_marks(from.marks)
                    };
                assert(to == there);
                assert(p.0.parses(after.0, from, at, None));
                assert(p.1.parses(after.1, at, to, Some(error)));
            }
        } else {
            let output = r->Ok_0;
            let at = choose|at: StreamState|
                {
                    &&& #[trigger] p.0.gets(after.0, from, at, Ok(output.0))
                    &&& p.1.gets(after.1, at, to, Ok(output.1))
                };
            assert(p.0.parses(after.0, from, at, None));
            assert(p.1.parses(after.1, at, to, None));
        }
    }
    assert forall|
        p: Choice<(A, C)>,
        after: Choice<(A, C)>,
        from: StreamState,
        to: StreamState,
        r: Result<A::Output, ParserError>,
    | #[trigger]
        p.gets(after, from, to, r) implies to.marks == from.marks && p.parses(
        after,
        from,
        to,
        parser::failure(r),
    ) by {
        let (a, c) = p.alternatives();
        let (a_after, c_after) = after.alternatives();
        let error = parser::failure(r);
        let (at, last) = choose|at: Seq<StreamState>, last: int|
            {
                &&& #[trigger] choice::decides(at, last, 2, from, to, error)
                &&& choice::get_tried(a, a_after, at[0], at[1], 0, last, r)
                &&& choice::get_tried(c, c_after, at[1], at[2], 1, last, r)
            };
        if last == 1 {
            let e = choose|e: ParserError| #[trigger]
                a.gets(a_after, from, at[1], Err(e)) && e.mismatch();
            assert(a.parses(a_after, from, at[1], Some(e)));
            assert(recover::mismatches(a, a_after, from, at[1]));
        }
        assert(choice::decides(at, last, 2, from, to, error));
    }
}

} // verus!
