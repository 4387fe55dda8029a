//! What holds of the combinators, whatever parser they are applied to, and of the calls of parsers.
use crate::errors::{ParserError, ParserErrorKind, StreamError};
use crate::laws::{choices, parsers};
use crate::parser;
use crate::parser::{Parser, ParserExt};
use crate::choice;
use crate::choice::{Choice, ChoiceParser};
use crate::parsers::basic;
use crate::parsers::basic::{CharPred, Chars, Eof};
use crate::recover;
use crate::recover::{Attempt, Maybe};
use crate::repeat;
use crate::repeat::{Many, ManyMax};
use crate::streamer::{StreamState, Streamer, StreamerRange};
use crate::text;
use vstd::multiset::Multiset;
use vstd::prelude::*;
use vstd::utf8::*;

verus! {

/// An optional parser gives the output of its parser if that one succeeds, and nothing if the input
/// does not match it, which leaves the stream where it is. Any other error is handed on.
pub proof fn law_maybe_gives_what_its_parser_gives<S: Streamer, P: Parser<Input = S>>(
    parser: Maybe<P>,
    after: Maybe<P>,
    from: StreamState,
    to: StreamState,
    r: Result<Option<P::Output>, ParserError>,
    output: P::Output,
)
    ensures
        parser.gets(after, from, to, r) <==> match r {
            Ok(Some(given)) => parser.inner().gets(after.inner(), from, to, Ok(given)),
            Ok(None) => {
                &&& to.pos == from.pos
                &&& exists|error: ParserError| #[trigger]
                    parser.inner().gets(after.inner(), from, to, Err(error)) && error.mismatch()
            },
            Err(error) => {
                &&& !error.mismatch()
                &&& parser.inner().gets(after.inner(), from, to, Err(error))
            },
        },
        Maybe::<P>::held(Some(output)) == P::held(output),
        Maybe::<P>::held(None) == Multiset::<nat>::empty(),
{
}

/// An optional parser succeeds where its parser does, and where the input does not match it, which
/// leaves the stream where it is. Any other error is handed on.
pub proof fn law_maybe_parses_what_its_parser_parses<S: Streamer, P: Parser<Input = S>>(
    parser: Maybe<P>,
    after: Maybe<P>,
    from: StreamState,
    to: StreamState,
    error: Option<ParserError>,
)
    ensures
        parser.parses(after, from, to, error) <==> match error {
            None => {
                ||| parser.inner().parses(after.inner(), from, to, None)
                ||| to.pos == from.pos && exists|found: ParserError| #[trigger]
                    parser.inner().parses(after.inner(), from, to, Some(found))
                        && found.mismatch()
            },
            Some(found) => {
                &&& !found.mismatch()
                &&& parser.inner().parses(after.inner(), from, to, Some(found))
            },
        },
        parser.ready(from) <==> {
            &&& parser.inner().ready(from)
            &&& forall|next: P, at: StreamState, found: ParserError| #[trigger]
                parser.inner().parses(next, from, at, Some(found)) && found.mismatch() ==> at.pos
                    == from.pos
            &&& forall|next: P, at: StreamState, found: ParserError| #[trigger]
                parser.inner().gets(next, from, at, Err(found)) && found.mismatch() ==> at.pos
                    == from.pos
        },
{
}

/// An optional character is given exactly if the stream gives a character of the class. Nothing is
/// given exactly if the stream gives another one, which stays there, or is at its end.
pub proof fn law_maybe_char_is_given<S: Streamer, F: FnMut(char) -> bool>(
    parser: Maybe<CharPred<S, F>>,
    class: spec_fn(char) -> bool,
    after: Maybe<CharPred<S, F>>,
    from: StreamState,
    to: StreamState,
    r: Result<Option<char>, ParserError>,
)
    requires
        parser.inner().accepts(class),
        from.fits(),
        parser.gets(after, from, to, r),
    ensures
        to.answers.len() == from.answers.len() + 1,
        match to.answers.last() {
            Ok(c) => if class(c) {
                &&& r == Ok::<Option<char>, ParserError>(Some(c))
                &&& to.pos == from.pos + encode_utf8(seq![c]).len()
            } else {
                r == Ok::<Option<char>, ParserError>(None) && to.pos == from.pos
            },
            Err(StreamError::EndOfInput) => {
                r == Ok::<Option<char>, ParserError>(None) && to.pos == from.pos
            },
            Err(_) => r is Err && to.pos == from.pos,
        },
        from.feed.steady_at(from.pos) ==> r == Ok::<Option<char>, ParserError>(
            if from.pos < from.feed.text.len() && class(text::char_at(from.feed.text, from.pos)) {
                Some(text::char_at(from.feed.text, from.pos))
            } else {
                None
            },
        ),
{
    let inner = parser.inner();
    law_maybe_gives_what_its_parser_gives(parser, after, from, to, r, arbitrary());
    match r {
        Ok(Some(c)) => {
            parsers::law_char_hands_on_answer(inner, class, after.inner(), from, to, Ok(c));
            text::lemma_char_encoding(from.feed.text, from.pos);
            text::lemma_boundary_next(from.feed.text, from.pos);
        },
        Ok(None) => {
            let error = choose|error: ParserError| #[trigger]
                inner.gets(after.inner(), from, to, Err(error)) && error.mismatch();
            parsers::law_char_hands_on_answer(inner, class, after.inner(), from, to, Err(error));
            parsers::law_char_is_decided_by_text(inner, class, after.inner(), from, to, Err(error));
        },
        Err(error) => {
            parsers::law_char_hands_on_answer(inner, class, after.inner(), from, to, Err(error));
            parsers::law_char_is_decided_by_text(inner, class, after.inner(), from, to, Err(error));
        },
    }
}

/// An attempted parser is applied with a checkpoint where it starts. If it succeeds, the checkpoint
/// is gone and the stream is where the parser left it, with its output. If it fails, the stream
/// goes back to the checkpoint, and the error is that of the parser.
pub proof fn law_attempt_is_made_from_checkpoint<S: Streamer, P: Parser<Input = S>>(
    parser: Attempt<P>,
    after: Attempt<P>,
    from: StreamState,
    to: StreamState,
    error: Option<ParserError>,
    r: Result<P::Output, ParserError>,
    output: P::Output,
)
    ensures
        ({
            let start = StreamState { marks: from.marks.insert(from.pos), ..from };
            &&& parser.ready(from) <==> parser.inner().ready(start)
            &&& parser.parses(after, from, to, error) <==> exists|there: StreamState|
                {
                    &&& #[trigger] parser.inner().parses(after.inner(), start, there, error)
                    &&& if error is None {
                        to == (StreamState { marks: there.marks.remove(from.pos), ..there })
                    } else {
                        went_back(there, to, from.pos)
                    }
                }
            &&& parser.gets(after, from, to, r) <==> exists|there: StreamState|
                {
                    &&& #[trigger] parser.inner().gets(after.inner(), start, there, r)
                    &&& if r is Ok {
                        to == (StreamState { marks: there.marks.remove(from.pos), ..there })
                    } else {
                        went_back(there, to, from.pos)
                    }
                }
        }),
        Attempt::<P>::held(output) == P::held(output),
{
}

/// Whether going back to the checkpoint at `mark` turns the state `there` into `to`: the checkpoint
/// is gone, and nothing else changes but the position and what can be gone back to from there,
/// which is one character before if the stream holds it.
pub open spec fn went_back(there: StreamState, to: StreamState, mark: nat) -> bool {
    &&& to == (StreamState {
        pos: mark,
        back: to.back,
        marks: there.marks.remove(mark),
        ..there
    })
    &&& to.fits()
    &&& to.back is Some <==> there.base < mark
}

/// Whether the parsers `steps` give `outputs` one after the other, each turning into the next one,
/// while the stream goes through the states `at`.
pub open spec fn give_in_a_row<P: Parser>(
    steps: Seq<P>,
    at: Seq<StreamState>,
    outputs: Seq<P::Output>,
) -> bool {
    &&& steps.len() == outputs.len() + 1
    &&& at.len() == outputs.len() + 1
    &&& forall|i: int, j: int|
        0 <= i < outputs.len() && j == i + 1 ==> (#[trigger] steps[i]).gets(
            #[trigger] steps[j],
            at[i],
            at[j],
            Ok(outputs[i]),
        )
}

/// Whether the parsers `steps` succeed one after the other, each turning into the next one, while
/// the stream goes through the states `at`.
pub open spec fn succeed_in_a_row<P: Parser>(steps: Seq<P>, at: Seq<StreamState>) -> bool {
    &&& steps.len() > 0
    &&& at.len() == steps.len()
    &&& forall|i: int, j: int|
        0 <= i < steps.len() - 1 && j == i + 1 ==> (#[trigger] steps[i]).parses(
            #[trigger] steps[j],
            at[i],
            at[j],
            None,
        )
}

proof fn lemma_repeats_in_a_row<P: Parser>(
    parser: P,
    last: P,
    from: StreamState,
    to: StreamState,
    n: nat,
) -> (run: (Seq<P>, Seq<StreamState>))
    requires
        repeat::repeats(parser, last, from, to, n),
    ensures
        succeed_in_a_row(run.0, run.1),
        run.0.len() == n + 1,
        run.0[0] == parser,
        run.0.last() == last,
        run.1[0] == from,
        run.1.last() == to,
    decreases n,
{
    if n == 0 {
        (seq![parser], seq![from])
    } else {
        let (before, at) = choose|before: P, at: StreamState|
            {
                &&& repeat::repeats(parser, before, from, at, (n - 1) as nat)
                &&& #[trigger] before.parses(last, at, to, None)
            };
        let run = lemma_repeats_in_a_row(parser, before, from, at, (n - 1) as nat);
        let longer = (run.0.push(last), run.1.push(to));
        assert forall|i: int, j: int|
            0 <= i < longer.0.len() - 1 && j == i + 1 implies (#[trigger] longer.0[i]).parses(
            #[trigger] longer.0[j],
            longer.1[i],
            longer.1[j],
            None,
        ) by {
            if i < run.0.len() - 1 {
                assert(run.0[i].parses(run.0[j], run.1[i], run.1[j], None));
            }
        }
        longer
    }
}

proof fn lemma_collects_in_a_row<P: Parser>(
    parser: P,
    last: P,
    from: StreamState,
    to: StreamState,
    outputs: Seq<P::Output>,
) -> (run: (Seq<P>, Seq<StreamState>))
    requires
        repeat::collects(parser, last, from, to, outputs),
    ensures
        give_in_a_row(run.0, run.1, outputs),
        run.0[0] == parser,
        run.0.last() == last,
        run.1[0] == from,
        run.1.last() == to,
    decreases outputs.len(),
{
    if outputs.len() == 0 {
        (seq![parser], seq![from])
    } else {
        let (before, at) = choose|before: P, at: StreamState|
            {
                &&& repeat::collects(parser, before, from, at, outputs.drop_last())
                &&& #[trigger] before.gets(last, at, to, Ok(outputs.last()))
            };
        let run = lemma_collects_in_a_row(parser, before, from, at, outputs.drop_last());
        let longer = (run.0.push(last), run.1.push(to));
        assert forall|i: int, j: int|
            0 <= i < outputs.len() && j == i + 1 implies (#[trigger] longer.0[i]).gets(
            #[trigger] longer.0[j],
            longer.1[i],
            longer.1[j],
            Ok(outputs[i]),
        ) by {
            if i < outputs.len() - 1 {
                assert(run.0[i].gets(run.0[j], run.1[i], run.1[j], Ok(outputs.drop_last()[i])));
            }
        }
        longer
    }
}

/// A repeated parser is applied until it fails, each time as the application before has left it and
/// where that one has left the stream. It is at the failure that it stops, and the outcome tells
/// whether that was one of the stream. The stream stays where the last success has left it unless
/// the stream failed.
pub proof fn law_many_applies_its_parser_until_it_fails<S: Streamer, P: Parser<Input = S>>(
    parser: Many<P>,
    after: Many<P>,
    from: StreamState,
    to: StreamState,
    error: Option<ParserError>,
)
    requires
        parser.parses(after, from, to, error),
    ensures
        exists|steps: Seq<P>, at: Seq<StreamState>, found: ParserError|
            {
                &&& #[trigger] succeed_in_a_row(steps, at)
                &&& steps[0] == parser.inner()
                &&& at[0] == from
                &&& #[trigger] steps.last().parses(after.inner(), at.last(), to, Some(found))
                &&& if found.stream_failure() {
                    error == Some(found)
                } else {
                    error is None && to.pos == at.last().pos
                }
            },
{
    let (last, at, n) = choose|last: P, at: StreamState, n: nat|
        {
            &&& #[trigger] repeat::repeats(parser.inner(), last, from, at, n)
            &&& match error {
                None => recover::gives_up(last, after.inner(), at, to),
                Some(e) => e.stream_failure() && last.parses(after.inner(), at, to, error),
            }
        };
    let run = lemma_repeats_in_a_row(parser.inner(), last, from, at, n);
    let found = match error {
        None => choose|found: ParserError| #[trigger]
            last.parses(after.inner(), at, to, Some(found)) && !found.stream_failure(),
        Some(e) => e,
    };
    assert(succeed_in_a_row(run.0, run.1));
    assert(run.0.last().parses(after.inner(), run.1.last(), to, Some(found)));
}

/// A repeated parser gives the outputs of all its successes, in order, and none else. If the stream
/// fails, the outputs give back what they hold.
pub proof fn law_many_gives_all_outputs<S: Streamer, P: Parser<Input = S>>(
    parser: Many<P>,
    after: Many<P>,
    from: StreamState,
    to: StreamState,
    r: Result<Vec<P::Output>, ParserError>,
)
    requires
        parser.gets(after, from, to, r),
    ensures
        exists|
            steps: Seq<P>,
            at: Seq<StreamState>,
            outputs: Seq<P::Output>,
            there: StreamState,
            found: ParserError,
        |
            {
                &&& #[trigger] give_in_a_row(steps, at, outputs)
                &&& steps[0] == parser.inner()
                &&& at[0] == from
                &&& #[trigger] steps.last().gets(after.inner(), at.last(), there, Err(found))
                &&& match r {
                    Ok(output) => {
                        &&& output@ == outputs
                        &&& !found.stream_failure()
                        &&& to == there
                        &&& to.pos == at.last().pos
                    },
                    Err(error) => {
                        &&& error == found
                        &&& found.stream_failure()
                        &&& to == (StreamState { marks: from.marks, ..there })
                    },
                }
            },
{
    let (last, at, outputs) = choose|last: P, at: StreamState, outputs: Seq<P::Output>|
        {
            &&& #[trigger] repeat::collects(parser.inner(), last, from, at, outputs)
            &&& match r {
                Ok(output) => {
                    &&& output@ == outputs
                    &&& recover::get_gives_up(last, after.inner(), at, to)
                },
                Err(e) => {
                    &&& e.stream_failure()
                    &&& exists|there: StreamState|
                        {
                            &&& #[trigger] last.gets(after.inner(), at, there, Err(e))
                            &&& to == there.with_marks(from.marks)
                        }
                },
            }
        };
    let run = lemma_collects_in_a_row(parser.inner(), last, from, at, outputs);
    assert(give_in_a_row(run.0, run.1, outputs));
    match r {
        Ok(_) => {
            let found = choose|found: ParserError| #[trigger]
                last.gets(after.inner(), at, to, Err(found)) && !found.stream_failure();
            assert(run.0.last().gets(after.inner(), run.1.last(), to, Err(found)));
        },
        Err(e) => {
            let there = choose|there: StreamState|
                {
                    &&& #[trigger] last.gets(after.inner(), at, there, Err(e))
                    &&& to == there.with_marks(from.marks)
                };
            assert(run.0.last().gets(after.inner(), run.1.last(), there, Err(e)));
        },
    }
}

/// A repeated parser can be applied if, however often it has succeeded, it can be applied again and
/// leaves the stream where it is when it fails without the stream failing, and if there is a number
/// of times that it cannot succeed more often than.
pub proof fn law_many_is_ready_if_it_ends<S: Streamer, P: Parser<Input = S>>(
    parser: Many<P>,
    from: StreamState,
    bound: nat,
)
    requires
        forall|steps: Seq<P>, at: Seq<StreamState>|
            {
                &&& #[trigger] succeed_in_a_row(steps, at)
                &&& steps[0] == parser.inner()
                &&& at[0] == from
            } ==> {
                &&& steps.len() <= bound + 1
                &&& steps.last().ready(at.last())
                &&& recover::stays_unless_stream_fails(steps.last(), at.last())
            },
        forall|steps: Seq<P>, at: Seq<StreamState>, outputs: Seq<P::Output>|
            {
                &&& #[trigger] give_in_a_row(steps, at, outputs)
                &&& steps[0] == parser.inner()
                &&& at[0] == from
            } ==> {
                &&& outputs.len() <= bound
                &&& steps.last().ready(at.last())
                &&& recover::stays_unless_stream_fails(steps.last(), at.last())
            },
    ensures
        parser.ready(from),
{
    let inner = parser.inner();
    assert forall|last: P, at: StreamState, n: nat| #[trigger]
        repeat::repeats(inner, last, from, at, n) implies repeat::repeatable(last, at) && n
        <= bound by {
        let run = lemma_repeats_in_a_row(inner, last, from, at, n);
        assert(succeed_in_a_row(run.0, run.1));
    }
    assert forall|last: P, at: StreamState, outputs: Seq<P::Output>| #[trigger]
        repeat::collects(inner, last, from, at, outputs) implies repeat::repeatable(last, at)
        && outputs.len() <= bound by {
        let run = lemma_collects_in_a_row(inner, last, from, at, outputs);
        assert(give_in_a_row(run.0, run.1, outputs));
    }
    assert(repeat::ends_within(inner, from, bound));
}

/// Whether a parser that may succeed no more often stops there: either it fails, or it succeeds on
/// the stream with a checkpoint, which is gone back to, and that is too many.
pub open spec fn stops_at_maximum<P: Parser>(
    parser: P,
    after: P,
    from: StreamState,
    to: StreamState,
    error: Option<ParserError>,
) -> bool {
    let start = StreamState { marks: from.marks.insert(from.pos), ..from };
    ||| exists|there: StreamState|
        {
            &&& #[trigger] parser.parses(after, start, there, None)
            &&& went_back(there, to, from.pos)
            &&& error matches Some(ParserError::Lazy(at, ParserErrorKind::TooMany)) && at
                == from.pos
        }
    ||| exists|there: StreamState, found: ParserError|
        {
            &&& #[trigger] parser.parses(after, start, there, Some(found))
            &&& to == (StreamState { marks: there.marks.remove(from.pos), ..there })
            &&& if found.stream_failure() {
                error == Some(found)
            } else {
                error is None && to.pos == from.pos
            }
        }
}

proof fn lemma_stops_at_maximum<P: Parser>(
    parser: P,
    after: P,
    from: StreamState,
    to: StreamState,
    error: Option<ParserError>,
)
    requires
        repeat::expects_no_more(parser, after, from, to, error),
    ensures
        stops_at_maximum(parser, after, from, to, error),
{
    let start = StreamState { marks: from.marks.insert(from.pos), ..from };
    let (there, found) = choose|there: StreamState, found: Option<ParserError>|
        {
            &&& #[trigger] parser.parses(after, from.marked(), there, found)
            &&& match found {
                None => {
                    &&& error matches Some(ParserError::Lazy(at, ParserErrorKind::TooMany))
                    &&& at == from.pos
                    &&& there.resets(to, from.pos)
                },
                Some(e) => {
                    &&& error == if e.stream_failure() {
                        found
                    } else {
                        None
                    }
                    &&& !e.stream_failure() ==> to.pos == from.pos
                    &&& to == there.released(from.pos)
                },
            }
        };
    match found {
        None => assert(parser.parses(after, start, there, None)),
        Some(e) => assert(parser.parses(after, start, there, Some(e))),
    }
}

/// A parser that is repeated up to a number of times is applied until it fails or has succeeded
/// that often, each time as the application before has left it. After that often, it has to fail.
pub proof fn law_many_max_applies_its_parser_up_to_maximum<S: Streamer, P: Parser<Input = S>>(
    parser: ManyMax<P>,
    after: ManyMax<P>,
    from: StreamState,
    to: StreamState,
    error: Option<ParserError>,
)
    requires
        parser.parses(after, from, to, error),
    ensures
        after.max_count() == parser.max_count(),
        exists|steps: Seq<P>, at: Seq<StreamState>|
            {
                &&& #[trigger] succeed_in_a_row(steps, at)
                &&& steps[0] == parser.inner()
                &&& at[0] == from
                &&& steps.len() <= parser.max_count() + 1
                &&& if steps.len() == parser.max_count() + 1 {
                    stops_at_maximum(steps.last(), after.inner(), at.last(), to, error)
                } else {
                    exists|found: ParserError|
                        {
                            &&& #[trigger] steps.last().parses(
                                after.inner(),
                                at.last(),
                                to,
                                Some(found),
                            )
                            &&& if found.stream_failure() {
                                error == Some(found)
                            } else {
                                error is None && to.pos == at.last().pos
                            }
                        }
                }
            },
{
    let (last, at, n) = choose|last: P, at: StreamState, n: nat|
        {
            &&& n <= parser.max_count()
            &&& #[trigger] repeat::repeats(parser.inner(), last, from, at, n)
            &&& if n == parser.max_count() {
                repeat::expects_no_more(last, after.inner(), at, to, error)
            } else {
                match error {
                    None => recover::gives_up(last, after.inner(), at, to),
                    Some(e) => e.stream_failure() && last.parses(after.inner(), at, to, error),
                }
            }
        };
    let run = lemma_repeats_in_a_row(parser.inner(), last, from, at, n);
    assert(succeed_in_a_row(run.0, run.1));
    if n == parser.max_count() {
        lemma_stops_at_maximum(last, after.inner(), at, to, error);
    } else {
        let found = match error {
            None => choose|found: ParserError| #[trigger]
                last.parses(after.inner(), at, to, Some(found)) && !found.stream_failure(),
            Some(e) => e,
        };
        assert(run.0.last().parses(after.inner(), run.1.last(), to, Some(found)));
    }
}

/// A parser that is repeated up to a number of times gives the outputs of all its successes, in
/// order, and none else. If there are too many or the stream fails, the outputs give back what they
/// hold.
pub proof fn law_many_max_gives_all_outputs<S: Streamer, P: Parser<Input = S>>(
    parser: ManyMax<P>,
    after: ManyMax<P>,
    from: StreamState,
    to: StreamState,
    r: Result<Vec<P::Output>, ParserError>,
)
    requires
        parser.gets(after, from, to, r),
    ensures
        after.max_count() == parser.max_count(),
        exists|
            steps: Seq<P>,
            at: Seq<StreamState>,
            outputs: Seq<P::Output>,
            there: StreamState,
            at_maximum: bool,
        |
            {
                &&& #[trigger] give_in_a_row(steps, at, outputs)
                &&& steps[0] == parser.inner()
                &&& at[0] == from
                &&& outputs.len() <= parser.max_count()
                &&& at_maximum <==> outputs.len() == parser.max_count()
                &&& #[trigger] stops_after(
                    steps.last(),
                    after.inner(),
                    at.last(),
                    there,
                    at_maximum,
                    parser::failure(r),
                )
                &&& match r {
                    Ok(output) => output@ == outputs && to == there,
                    Err(_) => to == (StreamState { marks: from.marks, ..there }),
                }
            },
{
    let (last, at, there, outputs) = choose|
        last: P,
        at: StreamState,
        there: StreamState,
        outputs: Seq<P::Output>,
    |
        {
            &&& outputs.len() <= parser.max_count()
            &&& #[trigger] repeat::collects(parser.inner(), last, from, at, outputs)
            &&& #[trigger] parser.stops(after, last, at, there, outputs, r)
            &&& match r {
                Ok(output) => output@ == outputs && to == there,
                Err(_) => to == there.with_marks(from.marks),
            }
        };
    let error = parser::failure(r);
    let run = lemma_collects_in_a_row(parser.inner(), last, from, at, outputs);
    assert(give_in_a_row(run.0, run.1, outputs));
    if outputs.len() == parser.max_count() {
        lemma_stops_at_maximum(last, after.inner(), at, there, error);
    } else {
        let found = match r {
            Ok(_) => choose|found: ParserError| #[trigger]
                last.gets(after.inner(), at, there, Err(found)) && !found.stream_failure(),
            Err(e) => e,
        };
        assert(last.gets(after.inner(), at, there, Err(found)));
    }
    assert(stops_after(
        run.0.last(),
        after.inner(),
        run.1.last(),
        there,
        outputs.len() == parser.max_count(),
        error,
    ));
}

/// Whether a parser that was repeated stops: because it has succeeded as often as it may, or
/// because it fails.
pub open spec fn stops_after<P: Parser>(
    parser: P,
    after: P,
    from: StreamState,
    to: StreamState,
    at_maximum: bool,
    error: Option<ParserError>,
) -> bool {
    if at_maximum {
        stops_at_maximum(parser, after, from, to, error)
    } else {
        exists|found: ParserError|
            {
                &&& #[trigger] parser.gets(after, from, to, Err(found))
                &&& if found.stream_failure() {
                    error == Some(found)
                } else {
                    error is None && to.pos == from.pos
                }
            }
    }
}

/// A parser that is repeated up to a number of times can be applied if, as long as it has not
/// succeeded too often, it can be applied again and leaves the stream where it is when it fails
/// without the stream failing.
pub proof fn law_many_max_is_ready_if_its_parser_is<S: Streamer, P: Parser<Input = S>>(
    parser: ManyMax<P>,
    from: StreamState,
)
    requires
        forall|steps: Seq<P>, at: Seq<StreamState>|
            {
                &&& #[trigger] succeed_in_a_row(steps, at)
                &&& steps[0] == parser.inner()
                &&& at[0] == from
            } ==> can_go_on(steps.last(), at.last(), steps.len() - 1 - parser.max_count()),
        forall|steps: Seq<P>, at: Seq<StreamState>, outputs: Seq<P::Output>|
            {
                &&& #[trigger] give_in_a_row(steps, at, outputs)
                &&& steps[0] == parser.inner()
                &&& at[0] == from
            } ==> can_go_on(steps.last(), at.last(), outputs.len() - parser.max_count()),
    ensures
        parser.ready(from),
{
    let inner = parser.inner();
    assert forall|last: P, at: StreamState, n: nat| #[trigger]
        repeat::repeats(inner, last, from, at, n) implies can_go_on(
        last,
        at,
        n - parser.max_count(),
    ) by {
        let run = lemma_repeats_in_a_row(inner, last, from, at, n);
        assert(succeed_in_a_row(run.0, run.1));
    }
    assert forall|last: P, at: StreamState, outputs: Seq<P::Output>| #[trigger]
        repeat::collects(inner, last, from, at, outputs) implies can_go_on(
        last,
        at,
        outputs.len() - parser.max_count(),
    ) by {
        let run = lemma_collects_in_a_row(inner, last, from, at, outputs);
        assert(give_in_a_row(run.0, run.1, outputs));
    }
}

/// Whether a parser that is `beyond` successes beyond its maximum can be applied again, if it is
/// not beyond it: at the maximum, the stream has a checkpoint then.
pub open spec fn can_go_on<P: Parser>(parser: P, at: StreamState, beyond: int) -> bool {
    let marked = StreamState { marks: at.marks.insert(at.pos), ..at };
    &&& beyond < 0 ==> {
        &&& parser.ready(at)
        &&& recover::stays_unless_stream_fails(parser, at)
    }
    &&& beyond == 0 ==> {
        &&& parser.ready(marked)
        &&& recover::stays_unless_stream_fails(parser, marked)
    }
}

/// Whatever parser is called, its stream delivers the same afterwards, has the checkpoints that it
/// had, and has moved forward if the parser succeeded. What the call does is what the parser does.
pub proof fn law_parse_does_what_the_parser_does<P: Parser>(
    parser: &mut P,
    stream: &mut P::Input,
    r: Result<(), ParserError>,
)
    requires
        call_ensures(P::parse, (parser, stream), r),
    ensures
        final(stream).wf(),
        final(stream)@.feed == old(stream)@.feed,
        final(stream)@.marks == old(stream)@.marks,
        r is Ok ==> old(stream)@.pos <= final(stream)@.pos,
        old(parser).parses(
            *final(parser),
            old(stream)@,
            final(stream)@,
            match r {
                Ok(()) => None,
                Err(error) => Some(error),
            },
        ),
        comes_of_answer(r, final(stream)@.answers),
{
}

/// Like `law_parse_does_what_the_parser_does`, but that the stream has the checkpoints besides that
/// the output holds.
pub proof fn law_get_does_what_the_parser_does<P: Parser>(
    parser: &mut P,
    stream: &mut P::Input,
    r: Result<P::Output, ParserError>,
)
    requires
        call_ensures(P::get, (parser, stream), r),
    ensures
        final(stream).wf(),
        final(stream)@.feed == old(stream)@.feed,
        r is Ok ==> old(stream)@.pos <= final(stream)@.pos,
        forall|mark: nat| #[trigger]
            final(stream)@.marks.count(mark) == old(stream)@.marks.count(mark) + (match r {
                Ok(output) => P::held(output).count(mark),
                Err(_) => 0,
            }),
        old(parser).gets(*final(parser), old(stream)@, final(stream)@, r),
        comes_of_answer(r, final(stream)@.answers),
{
}

/// Whether an error that is about the stream is what the stream answered last.
pub open spec fn comes_of_answer<T>(
    r: Result<T, ParserError>,
    answers: Seq<Result<char, StreamError>>,
) -> bool {
    match r {
        Err(ParserError::Lazy(_, ParserErrorKind::UnexpectedEndOfInput)) => {
            &&& answers.len() > 0
            &&& answers.last() == Err::<char, StreamError>(StreamError::EndOfInput)
        },
        Err(ParserError::Lazy(_, ParserErrorKind::BufferFull)) => {
            &&& answers.len() > 0
            &&& answers.last() == Err::<char, StreamError>(StreamError::BufferFull)
        },
        Err(ParserError::Lazy(_, ParserErrorKind::InputError(kind))) => {
            &&& answers.len() > 0
            &&& answers.last() == Err::<char, StreamError>(StreamError::InputError(kind))
        },
        Err(ParserError::Lazy(_, ParserErrorKind::Utf8Error)) => {
            &&& answers.len() > 0
            &&& answers.last() == Err::<char, StreamError>(StreamError::Utf8Error)
        },
        _ => true,
    }
}

/// An output that is given back gives back the checkpoints that it holds, and nothing else of the
/// stream changes.
pub proof fn law_discard_gives_back_what_is_held<P: Parser>(
    output: P::Output,
    stream: &mut P::Input,
)
    requires
        call_ensures(P::discard, (output, stream), ()),
        P::held(output).subset_of(old(stream)@.marks),
    ensures
        final(stream).wf(),
        final(stream)@ == (StreamState { marks: final(stream)@.marks, ..old(stream)@ }),
        forall|mark: nat| #[trigger]
            final(stream)@.marks.count(mark) + P::held(output).count(mark)
                == old(stream)@.marks.count(mark),
{
}

/// The range of a parsed sequence begins where the stream was and ends where the parser has left
/// it, and its bytes are those of the text in between. The stream keeps them, and nothing if the
/// parser fails.
pub proof fn law_range_is_what_was_parsed<P: Parser>(
    parser: &mut P,
    stream: &mut P::Input,
    r: Result<<P::Input as Streamer>::Range, ParserError>,
)
    requires
        call_ensures(P::get_range, (parser, stream), r),
        old(stream).wf(),
    ensures
        final(stream).wf(),
        final(stream)@.feed == old(stream)@.feed,
        comes_of_answer(r, final(stream)@.answers),
        exists|start: StreamState, at: StreamState|
            {
                &&& start == (StreamState {
                    marks: old(stream)@.marks.insert(old(stream)@.pos),
                    ..old(stream)@
                })
                &&& #[trigger] old(parser).parses(*final(parser), start, at, parser::failure(r))
                &&& match r {
                    Ok(_) => final(stream)@ == (StreamState {
                        marks: at.marks.insert(at.pos),
                        ..at
                    }),
                    Err(_) => final(stream)@ == (StreamState {
                        marks: at.marks.remove(old(stream)@.pos),
                        ..at
                    }),
                }
            },
        match r {
            Ok(range) => {
                &&& range.start() == old(stream)@.pos
                &&& range.end() == final(stream)@.pos
                &&& range.belongs(final(stream))
                &&& range.content(final(stream)) == old(stream)@.feed.text.subrange(
                    old(stream)@.pos as int,
                    final(stream)@.pos as int,
                )
                &&& final(stream)@.marks == old(stream)@.marks.insert(range.start()).insert(
                    range.end(),
                )
            },
            Err(_) => final(stream)@.marks == old(stream)@.marks,
        },
{
    let start = StreamState {
        marks: old(stream)@.marks.insert(old(stream)@.pos),
        ..old(stream)@
    };
    assert(start == old(stream)@.marked());
    if let Ok(range) = r {
        final(stream).lemma_range(range);
    }
}

/// Whether `get_range` may have been called and returned `r`.
pub open spec fn range_is_got<P: Parser>(
    parser: &mut P,
    stream: &mut P::Input,
    r: Result<<P::Input as Streamer>::Range, ParserError>,
) -> bool {
    call_ensures(P::get_range, (parser, stream), r)
}

/// The range of a run of characters holds its bytes, and the stream is after it.
pub proof fn law_range_of_run<S: Streamer, F: FnMut(char) -> bool>(
    parser: &mut Many<CharPred<S, F>>,
    class: spec_fn(char) -> bool,
    stream: &mut S,
    r: Result<S::Range, ParserError>,
)
    requires
        range_is_got(parser, stream, r),
        old(parser).inner().accepts(class),
        old(stream).wf(),
    ensures
        r matches Ok(range) ==> {
            let text = old(stream)@.feed.text;
            let end = parsers::run_end(text, class, old(stream)@.pos);
            !old(stream)@.feed.abrupt ==> {
                &&& final(stream)@.pos == end
                &&& range.content(final(stream)) == text.subrange(
                    old(stream)@.pos as int,
                    end as int,
                )
            }
        },
        old(stream)@.feed.steady() ==> r is Ok,
{
    old(stream).lemma_wf();
    law_range_is_what_was_parsed(parser, stream, r);
    let start = StreamState {
        marks: old(stream)@.marks.insert(old(stream)@.pos),
        ..old(stream)@
    };
    let at = choose|at: StreamState|
        {
            &&& #[trigger] old(parser).parses(*final(parser), start, at, parser::failure(r))
            &&& final(stream)@.pos == at.pos
        };
    parsers::law_many_chars_takes_run(
        *old(parser),
        class,
        *final(parser),
        start,
        at,
        parser::failure(r),
    );
}

/// Whether `get_between` may have been called and returned `r`.
#[verifier::opaque]
pub open spec fn range_is_got_between<Q: Parser, P: Parser<Input = Q::Input>>(
    parser: &mut Q,
    stream: &mut Q::Input,
    between: P,
    r: Result<<Q::Input as Streamer>::Range, ParserError>,
) -> bool {
    call_ensures(Q::get_between::<P>, (parser, stream, between), r)
}

/// A range between two delimiters begins where the opening delimiter ends and ends where the parser
/// in the middle stops, which is where the closing delimiter begins. The stream is after the
/// closing delimiter, and keeps the range.
pub proof fn law_between_leaves_delimiters_out<Q: Parser, P: Parser<Input = Q::Input>>(
    parser: &mut Q,
    stream: &mut Q::Input,
    between: P,
    range: <Q::Input as Streamer>::Range,
)
    requires
        range_is_got_between(parser, stream, between, Ok(range)),
    ensures
        final(stream).wf(),
        final(stream)@.feed == old(stream)@.feed,
        range.start() <= range.end(),
        range.belongs(final(stream)),
        range.content(final(stream)) == old(stream)@.feed.text.subrange(
            range.start() as int,
            range.end() as int,
        ),
        final(stream)@.marks == old(stream)@.marks.insert(range.start()).insert(range.end()),
        exists|opened: P, closed: P, first: StreamState, second: StreamState|
            {
                &&& between.parses(opened, old(stream)@, first, None)
                &&& first.pos == range.start()
                &&& #[trigger] old(parser).parses(*final(parser), first.marked(), second, None)
                &&& second.pos == range.end()
                &&& #[trigger] opened.parses(closed, second.marked(), final(stream)@, None)
            },
{
    reveal(range_is_got_between);
    final(stream).lemma_range(range);
}

/// A range between two delimiters is not given only if the opening delimiter, the sequence in the
/// middle or the closing delimiter is not found, with the error that tells so. The stream keeps
/// nothing then.
pub proof fn law_between_fails_as_its_parsers_do<Q: Parser, P: Parser<Input = Q::Input>>(
    parser: &mut Q,
    stream: &mut Q::Input,
    between: P,
    error: ParserError,
)
    requires
        range_is_got_between(parser, stream, between, Err(error)),
    ensures
        final(stream).wf(),
        final(stream)@.feed == old(stream)@.feed,
        final(stream)@.marks == old(stream)@.marks,
        ({
            ||| *final(parser) == *old(parser) && exists|opened: P| #[trigger]
                between.parses(opened, old(stream)@, final(stream)@, Some(error))
            ||| exists|opened: P, first: StreamState, at: StreamState|
                {
                    &&& #[trigger] between.parses(opened, old(stream)@, first, None)
                    &&& #[trigger] old(parser).parses(
                        *final(parser),
                        first.marked(),
                        at,
                        Some(error),
                    )
                    &&& final(stream)@ == (StreamState { marks: old(stream)@.marks, ..at })
                }
            ||| exists|
                opened: P,
                closed: P,
                first: StreamState,
                second: StreamState,
                at: StreamState,
            |
                {
                    &&& between.parses(opened, old(stream)@, first, None)
                    &&& #[trigger] old(parser).parses(
                        *final(parser),
                        first.marked(),
                        second,
                        None,
                    )
                    &&& #[trigger] opened.parses(closed, second.marked(), at, Some(error))
                    &&& final(stream)@ == (StreamState { marks: old(stream)@.marks, ..at })
                }
        }),
{
    reveal(range_is_got_between);
    assert(parser::fails_between(
        *old(parser),
        *final(parser),
        between,
        old(stream)@,
        final(stream)@,
        error,
    ));
}

/// Between two characters of a class of delimiters, the range of a run of characters of another
/// class holds the run that follows the opening delimiter, and the stream is one delimiter after
/// the end of the range. On a stream that nothing stops but the end of its text, the range is given
/// exactly if there is a delimiter before the run and one after it.
pub proof fn law_run_between_delimiters<
    S: Streamer,
    F: FnMut(char) -> bool,
    G: FnMut(char) -> bool,
>(
    parser: &mut Many<CharPred<S, F>>,
    class: spec_fn(char) -> bool,
    stream: &mut S,
    between: CharPred<S, G>,
    delimiters: spec_fn(char) -> bool,
    r: Result<S::Range, ParserError>,
)
    requires
        range_is_got_between(parser, stream, between, r),
        old(parser).inner().accepts(class),
        between.accepts(delimiters),
        old(stream).wf(),
        !old(stream)@.feed.abrupt,
    ensures
        r matches Ok(range) ==> {
            let text = old(stream)@.feed.text;
            let from = old(stream)@.pos;
            let start = from + text::width_at(text, from);
            let end = parsers::run_end(text, class, start);
            &&& from < text.len() && delimiters(text::char_at(text, from))
            &&& range.start() == start
            &&& range.end() == end
            &&& range.content(final(stream)) == text.subrange(start as int, end as int)
            &&& end < text.len() && delimiters(text::char_at(text, end))
            &&& final(stream)@.pos == end + text::width_at(text, end)
        },
        old(stream)@.feed.steady() ==> (r is Ok <==> {
            let text = old(stream)@.feed.text;
            let from = old(stream)@.pos;
            let end = parsers::run_end(text, class, from + text::width_at(text, from));
            &&& from < text.len() && delimiters(text::char_at(text, from))
            &&& end < text.len() && delimiters(text::char_at(text, end))
        }),
{
    let from = old(stream)@;
    let text = from.feed.text;
    let end = parsers::run_end(text, class, from.pos + text::width_at(text, from.pos));
    old(stream).lemma_wf();
    match r {
        Ok(range) => {
            law_between_leaves_delimiters_out(parser, stream, between, range);
            let (opened, closed, first, second) = choose|
                opened: CharPred<S, G>,
                closed: CharPred<S, G>,
                first: StreamState,
                second: StreamState,
            |
                {
                    &&& between.parses(opened, from, first, None)
                    &&& first.pos == range.start()
                    &&& #[trigger] old(parser).parses(
                        *final(parser),
                        first.marked(),
                        second,
                        None,
                    )
                    &&& second.pos == range.end()
                    &&& #[trigger] opened.parses(closed, second.marked(), final(stream)@, None)
                };
            lemma_between_leaves_out(
                *old(parser),
                class,
                *final(parser),
                between,
                opened,
                closed,
                delimiters,
                from,
                first,
                second,
                final(stream)@,
            );
        },
        Err(error) => {
            law_between_fails_as_its_parsers_do(parser, stream, between, error);
            if from.feed.steady() && from.pos < text.len() && delimiters(
                text::char_at(text, from.pos),
            ) && end < text.len() && delimiters(text::char_at(text, end)) {
                lemma_between_is_found(
                    *old(parser),
                    class,
                    *final(parser),
                    between,
                    delimiters,
                    from,
                    error,
                );
            }
        },
    }
}

/// Where the delimiters and the run are that were found.
proof fn lemma_between_leaves_out<S: Streamer, F: FnMut(char) -> bool, G: FnMut(char) -> bool>(
    parser: Many<CharPred<S, F>>,
    class: spec_fn(char) -> bool,
    after: Many<CharPred<S, F>>,
    between: CharPred<S, G>,
    opened: CharPred<S, G>,
    closed: CharPred<S, G>,
    delimiters: spec_fn(char) -> bool,
    from: StreamState,
    first: StreamState,
    second: StreamState,
    to: StreamState,
)
    requires
        parser.inner().accepts(class),
        between.accepts(delimiters),
        from.fits(),
        !from.feed.abrupt,
        between.parses(opened, from, first, None),
        parser.parses(after, first.marked(), second, None),
        opened.parses(closed, second.marked(), to, None),
    ensures
        from.pos < from.feed.text.len(),
        delimiters(text::char_at(from.feed.text, from.pos)),
        first.pos == from.pos + text::width_at(from.feed.text, from.pos),
        second.pos == parsers::run_end(from.feed.text, class, first.pos),
        second.pos < from.feed.text.len(),
        delimiters(text::char_at(from.feed.text, second.pos)),
        to.pos == second.pos + text::width_at(from.feed.text, second.pos),
{
    parsers::law_char_takes_one(between, delimiters, opened, from, first, None);
    lemma_run_is_over(parser, class, after, first.marked(), second, None);
    parsers::law_char_takes_one(opened, delimiters, closed, second.marked(), to, None);
}

/// Where there is a delimiter before a run and one after it, nothing fails.
proof fn lemma_between_is_found<S: Streamer, F: FnMut(char) -> bool, G: FnMut(char) -> bool>(
    parser: Many<CharPred<S, F>>,
    class: spec_fn(char) -> bool,
    after: Many<CharPred<S, F>>,
    between: CharPred<S, G>,
    delimiters: spec_fn(char) -> bool,
    from: StreamState,
    error: ParserError,
)
    requires
        parser.inner().accepts(class),
        between.accepts(delimiters),
        from.fits(),
        from.feed.steady(),
        ({
            let text = from.feed.text;
            let end = parsers::run_end(text, class, from.pos + text::width_at(text, from.pos));
            &&& from.pos < text.len() && delimiters(text::char_at(text, from.pos))
            &&& end < text.len() && delimiters(text::char_at(text, end))
        }),
    ensures
        forall|opened: CharPred<S, G>, at: StreamState|
            !(#[trigger] between.parses(opened, from, at, Some(error))),
        forall|opened: CharPred<S, G>, first: StreamState, at: StreamState|
            #![trigger between.parses(opened, from, first, None), parser.parses(
                after,
                first.marked(),
                at,
                Some(error),
            )]
            between.parses(opened, from, first, None) ==> !parser.parses(
                after,
                first.marked(),
                at,
                Some(error),
            ),
        forall|
            opened: CharPred<S, G>,
            closed: CharPred<S, G>,
            first: StreamState,
            second: StreamState,
            at: StreamState,
        |
            #![trigger between.parses(opened, from, first, None), parser.parses(
                after,
                first.marked(),
                second,
                None,
            ), opened.parses(closed, second.marked(), at, Some(error))]
            between.parses(opened, from, first, None) && parser.parses(
                after,
                first.marked(),
                second,
                None,
            ) ==> !opened.parses(closed, second.marked(), at, Some(error)),
{
    assert forall|opened: CharPred<S, G>, at: StreamState|
        !(#[trigger] between.parses(opened, from, at, Some(error))) by {
        if between.parses(opened, from, at, Some(error)) {
            parsers::law_char_is_decided(between, delimiters, opened, from, at, Some(error));
        }
    }
    assert forall|opened: CharPred<S, G>, first: StreamState, at: StreamState|
        #![trigger between.parses(opened, from, first, None), parser.parses(
            after,
            first.marked(),
            at,
            Some(error),
        )]
        between.parses(opened, from, first, None) implies !parser.parses(
        after,
        first.marked(),
        at,
        Some(error),
    ) by {
        if parser.parses(after, first.marked(), at, Some(error)) {
            parsers::law_char_takes_one(between, delimiters, opened, from, first, None);
            lemma_run_is_over(parser, class, after, first.marked(), at, Some(error));
        }
    }
    assert forall|
        opened: CharPred<S, G>,
        closed: CharPred<S, G>,
        first: StreamState,
        second: StreamState,
        at: StreamState,
    |
        #![trigger between.parses(opened, from, first, None), parser.parses(
            after,
            first.marked(),
            second,
            None,
        ), opened.parses(closed, second.marked(), at, Some(error))]
        between.parses(opened, from, first, None) && parser.parses(
            after,
            first.marked(),
            second,
            None,
        ) implies !opened.parses(closed, second.marked(), at, Some(error)) by {
        if opened.parses(closed, second.marked(), at, Some(error)) {
            parsers::law_char_takes_one(between, delimiters, opened, from, first, None);
            lemma_run_is_over(parser, class, after, first.marked(), second, None);
            parsers::law_char_is_decided(
                opened,
                delimiters,
                closed,
                second.marked(),
                at,
                Some(error),
            );
        }
    }
}

/// Where a run is over, on a stream whose source has no unexpected end before its end.
proof fn lemma_run_is_over<S: Streamer, F: FnMut(char) -> bool>(
    parser: Many<CharPred<S, F>>,
    class: spec_fn(char) -> bool,
    after: Many<CharPred<S, F>>,
    from: StreamState,
    to: StreamState,
    error: Option<ParserError>,
)
    requires
        parser.inner().accepts(class),
        from.fits(),
        !from.feed.abrupt,
        parser.parses(after, from, to, error),
    ensures
        to.fits(),
        to.feed == from.feed,
        error is None ==> to.pos == parsers::run_end(from.feed.text, class, from.pos),
        from.feed.steady() ==> error is None,
{
    parsers::law_many_chars_takes_run(parser, class, after, from, to, error);
}

/// A combinator is made of the parser that it is given.
pub proof fn law_combinators_are_made_of_their_parsers<S: Streamer, P: Parser<Input = S>>(
    parser: P,
    max_count: usize,
    attempted: Attempt<P>,
    optional: Maybe<P>,
    repeated: Many<P>,
    limited: ManyMax<P>,
)
    requires
        call_ensures(recover::attempt::<S, P>, (parser,), attempted),
        call_ensures(recover::maybe::<P>, (parser,), optional),
        call_ensures(repeat::many::<S, P>, (parser,), repeated),
        call_ensures(repeat::many_max::<P>, (parser, max_count), limited),
    ensures
        attempted.inner() == parser,
        optional.inner() == parser,
        repeated.inner() == parser,
        limited.inner() == parser,
        limited.max_count() == max_count,
{
}

/// A choice is one between the alternatives that it is given.
pub proof fn law_choice_is_made_of_its_alternatives<C: ChoiceParser>(
    alternatives: C,
    parser: Choice<C>,
)
    requires
        call_ensures(choice::choice::<C>, (alternatives,), parser),
    ensures
        parser.alternatives() == alternatives,
{
}

/// The parser of a predicate accepts the characters that the predicate holds of, the parser of a
/// word looks for the characters of that word, and each can be applied anywhere.
pub proof fn law_basic_parsers_are_made_of_what_they_look_for<
    S: Streamer,
    F: FnMut(char) -> bool,
>(
    predicate: F,
    class: spec_fn(char) -> bool,
    character: CharPred<S, F>,
    word: &'static str,
    chars: Chars<S>,
    end: Eof<S>,
    from: StreamState,
)
    requires
        call_ensures(basic::char_predicate::<S, F>, (predicate,), character),
        forall|c: char| #[trigger] call_requires(predicate, (c,)),
        forall|c: char, b: bool| #[trigger]
            call_ensures(predicate, (c,), b) ==> (b <==> class(c)),
        call_ensures(basic::chars::<S>, (word,), chars),
        word@.len() > 0,
        call_ensures(basic::eof::<S>, (), end),
    ensures
        character.accepts(class),
        character.ready(from),
        chars.word() == word@,
        chars.ready(from),
        end.ready(from),
{
}

/// A parser that is ready for a stream can be called, and its sequence between two delimiters if
/// all of them are ready one after the other.
pub proof fn law_ready_parsers_can_be_called<Q: Parser, P: Parser<Input = Q::Input>>(
    parser: &mut Q,
    between: P,
    stream: &mut Q::Input,
)
    requires
        old(stream).wf(),
    ensures
        old(parser).ready(old(stream)@) ==> {
            &&& call_requires(Q::parse, (parser, stream))
            &&& call_requires(Q::get, (parser, stream))
        },
        old(parser).ready(old(stream)@.marked()) ==> call_requires(
            Q::get_range,
            (parser, stream),
        ),
        ({
            &&& between.ready(old(stream)@)
            &&& forall|opened: P, first: StreamState| #[trigger]
                between.parses(opened, old(stream)@, first, None) ==> {
                    &&& old(parser).ready(first.marked())
                    &&& forall|after: Q, second: StreamState| #[trigger]
                        old(parser).parses(after, first.marked(), second, None) ==> opened.ready(
                            second.marked(),
                        )
                }
        }) ==> call_requires(Q::get_between::<P>, (parser, stream, between)),
{
}

/// Where nothing stops a stream but the end of its text, a choice between two classes of characters
/// gives the character there exactly if it is of one of them. Otherwise the stream stays where it
/// is.
pub proof fn law_choice_takes_either_class<
    S: Streamer,
    F: FnMut(char) -> bool,
    G: FnMut(char) -> bool,
>(
    parser: Choice<(CharPred<S, F>, CharPred<S, G>)>,
    class: spec_fn(char) -> bool,
    other: spec_fn(char) -> bool,
    after: Choice<(CharPred<S, F>, CharPred<S, G>)>,
    from: StreamState,
    to: StreamState,
    r: Result<char, ParserError>,
)
    requires
        parser.alternatives().0.accepts(class),
        parser.alternatives().1.accepts(other),
        from.fits(),
        from.feed.steady_at(from.pos),
        parser.gets(after, from, to, r),
    ensures
        ({
            let c = text::char_at(from.feed.text, from.pos);
            if from.pos < from.feed.text.len() && (class(c) || other(c)) {
                r == Ok::<char, ParserError>(c)
            } else {
                r is Err && r->Err_0.mismatch() && to.pos == from.pos
            }
        }),
{
    let (a, b) = parser.alternatives();
    let (a_after, b_after) = after.alternatives();
    choices::law_choice_between_two_gives_first(
        parser.alternatives(),
        after.alternatives(),
        from,
        to,
        r,
        arbitrary(),
    );
    if exists|at: StreamState, e: ParserError|
        {
            &&& #[trigger] choices::get_left_by(a, a_after, from, at, e)
            &&& (b,).choice_gets((b_after,), at, to, r)
        } {
        let (at, e) = choose|at: StreamState, e: ParserError|
            {
                &&& #[trigger] choices::get_left_by(a, a_after, from, at, e)
                &&& (b,).choice_gets((b_after,), at, to, r)
            };
        choices::law_single_alternative_is_applied(
            (b,),
            (b_after,),
            at,
            to,
            parser::failure(r),
            r,
            arbitrary(),
        );
        parsers::law_char_is_decided_by_text(a, class, a_after, from, at, Err(e));
        parsers::law_char_takes_one(a, class, a_after, from, at, Some(e));
        parsers::law_char_is_decided_by_text(b, other, b_after, at, to, r);
    } else {
        parsers::law_char_is_decided_by_text(a, class, a_after, from, to, r);
    }
}

/// Where nothing stops a stream but the end of its text, a pair of classes of characters gives the
/// next two characters exactly if the first one is of the first class and the second one of the
/// second class, and the stream is after both.
pub proof fn law_pair_takes_both_classes<
    S: Streamer,
    F: FnMut(char) -> bool,
    G: FnMut(char) -> bool,
>(
    parser: (CharPred<S, F>, CharPred<S, G>),
    class: spec_fn(char) -> bool,
    other: spec_fn(char) -> bool,
    after: (CharPred<S, F>, CharPred<S, G>),
    from: StreamState,
    to: StreamState,
    r: Result<(char, char), ParserError>,
)
    requires
        parser.0.accepts(class),
        parser.1.accepts(other),
        from.fits(),
        from.feed.steady(),
        parser.gets(after, from, to, r),
    ensures
        ({
            let text = from.feed.text;
            let next = from.pos + text::width_at(text, from.pos);
            let (c, d) = (text::char_at(text, from.pos), text::char_at(text, next));
            if from.pos < text.len() && class(c) && next < text.len() && other(d) {
                &&& r == Ok::<(char, char), ParserError>((c, d))
                &&& to.pos == next + text::width_at(text, next)
            } else {
                r is Err && r->Err_0.mismatch()
            }
        }),
{
    parsers::law_tuple_of_two_gives_both(parser, after, from, to, r);
    let (a, b) = parser;
    let (a_after, b_after) = after;
    match r {
        Ok(output) => {
            let at = choose|at: StreamState|
                {
                    &&& #[trigger] a.gets(a_after, from, at, Ok(output.0))
                    &&& b.gets(b_after, at, to, Ok(output.1))
                };
            parsers::law_char_is_decided_by_text(a, class, a_after, from, at, Ok(output.0));
            parsers::law_char_takes_one(a, class, a_after, from, at, None);
            parsers::law_char_is_decided_by_text(b, other, b_after, at, to, Ok(output.1));
            parsers::law_char_takes_one(b, other, b_after, at, to, None);
        },
        Err(error) => {
            if exists|at: StreamState, there: StreamState, output: char|
                {
                    &&& #[trigger] a.gets(a_after, from, at, Ok(output))
                    &&& #[trigger] b.gets(b_after, at, there, Err(error))
                    &&& to == there.with_marks(from.marks)
                } {
                let (at, there, output) = choose|at: StreamState, there: StreamState, output: char|
                    {
                        &&& #[trigger] a.gets(a_after, from, at, Ok(output))
                        &&& #[trigger] b.gets(b_after, at, there, Err(error))
                        &&& to == there.with_marks(from.marks)
                    };
                parsers::law_char_takes_one(a, class, a_after, from, at, None);
                parsers::law_char_is_decided_by_text(b, other, b_after, at, there, Err(error));
            } else {
                let at = choose|at: StreamState| #[trigger]
                    a.gets(a_after, from, at, Err(error));
                parsers::law_char_is_decided_by_text(a, class, a_after, from, at, Err(error));
            }
        },
    }
}

} // verus!
