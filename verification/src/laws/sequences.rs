//! What holds of tuples of parsers, of any length.
use crate::errors::ParserError;
use crate::laws::parsers;
use crate::parser;
use crate::parser::Parser;
use crate::sequence;
use crate::streamer::StreamState;
use vstd::prelude::*;

verus! {

/// A tuple of one parser does what the parser does, and gives its output.
pub proof fn law_sequence_of_one<A: Parser>(
    parser: (A,),
    after: (A,),
    from: StreamState,
    to: StreamState,
    error: Option<ParserError>,
    r: Result<(A::Output,), ParserError>,
)
    ensures
        parser.ready(from) <==> parser.0.ready(from),
        parser.parses(after, from, to, error) <==> parser.0.parses(after.0, from, to, error),
        parser.gets(after, from, to, r) <==> match r {
            Ok(output) => parser.0.gets(after.0, from, to, Ok(output.0)),
            Err(error) => exists|at: StreamState|
                {
                    &&& #[trigger] parser.0.gets(after.0, from, at, Err(error))
                    &&& to == (StreamState { marks: from.marks, ..at })
                },
        },
{
    assert(sequence::route(seq![from, to], 0, 1, from, to, error));
    assert(sequence::route(seq![from, to], 0, 1, from, to, None));
    if let Err(error) = r {
        if parser.gets(after, from, to, r) {
            let (at, last) = choose|at: Seq<StreamState>, last: int|
                {
                    &&& #[trigger] sequence::undone(at, last, 1, from, to)
                    &&& sequence::tries(parser.0, after.0, at[0], at[1], 0, last, error)
                };
            assert(parser.0.gets(after.0, from, at[1], Err(error)));
        }
        assert forall|at: StreamState|
            {
                &&& #[trigger] parser.0.gets(after.0, from, at, Err(error))
                &&& to == (StreamState { marks: from.marks, ..at })
            } implies parser.gets(after, from, to, r) by {
            assert(sequence::undone(seq![from, at], 0, 1, from, to));
        }
    }
}

/// A tuple of two parsers does what the first one does if that one fails, and what the tuple of the
/// others does from where the first one succeeded otherwise. It can be applied where that can.
pub proof fn law_sequence_of_two<
    A: Parser,
    B: Parser<Input = A::Input>,
>(
    parser: (A, B),
    after: (A, B),
    from: StreamState,
    to: StreamState,
    error: Option<ParserError>,
)
    ensures
        parser.ready(from) <==> {
            let rest = (parser.1,);
            &&& parser.0.ready(from)
            &&& forall|next: A, at: StreamState| #[trigger]
                parser.0.parses(next, from, at, None) ==> rest.ready(at)
            &&& forall|next: A, at: StreamState, output: A::Output| #[trigger]
                parser.0.gets(next, from, at, Ok(output)) ==> rest.ready(at)
        },
        parser.parses(after, from, to, error) <==> {
            let rest = (parser.1,);
            let rest_after = (after.1,);
            ||| error is Some && parser.0.parses(after.0, from, to, error) && rest_after == rest
            ||| exists|at: StreamState|
                {
                    &&& #[trigger] parser.0.parses(after.0, from, at, None)
                    &&& rest.parses(rest_after, at, to, error)
                }
        },
{
    let rest = (parser.1,);
    let rest_after = (after.1,);
    if parser.parses(after, from, to, error) {
        let (at, last) = choose|at: Seq<StreamState>, last: int|
            {
                &&& #[trigger] sequence::route(at, last, 2, from, to, error)
                &&& sequence::step(parser.0, after.0, at[0], at[1], 0, last, error)
                &&& sequence::step(parser.1, after.1, at[1], at[2], 1, last, error)
            };
        if last > 0 {
            let tail = at.skip(1);
            assert(parser.0.parses(after.0, from, at[1], None));
            assert(sequence::route(tail, last - 1, 1, at[1], to, error));
            assert(rest.parses(rest_after, at[1], to, error));
        }
    }
    if error is Some && parser.0.parses(after.0, from, to, error) && rest_after == rest {
        assert(sequence::route(seq![from, to], 0, 2, from, to, error));
    }
    assert forall|next: StreamState|
        {
            &&& #[trigger] parser.0.parses(after.0, from, next, None)
            &&& rest.parses(rest_after, next, to, error)
        } implies parser.parses(after, from, to, error) by {
        let (tail, last) = choose|tail: Seq<StreamState>, last: int|
            {
                &&& #[trigger] sequence::route(tail, last, 1, next, to, error)
                &&& sequence::step(parser.1, after.1, tail[0], tail[1], 0, last, error)
            };
        let at = seq![from] + tail;
        assert(sequence::route(at, last + 1, 2, from, to, error));
    }
}

/// A tuple of two parsers gives the output of the first one and those of the tuple of the others,
/// which is applied while the output of the first one keeps what it holds. If one fails, what the
/// outputs hold is given back.
pub proof fn law_sequence_of_two_gives_all<
    A: Parser,
    B: Parser<Input = A::Input>,
>(
    parser: (A, B),
    after: (A, B),
    from: StreamState,
    to: StreamState,
    r: Result<(A::Output, B::Output), ParserError>,
)
    ensures
        parser.gets(after, from, to, r) <==> {
            let rest = (parser.1,);
            let rest_after = (after.1,);
            match r {
                Ok(output) => exists|at: StreamState|
                    {
                        &&& #[trigger] parser.0.gets(after.0, from, at, Ok(output.0))
                        &&& rest.gets(rest_after, at, to, Ok((output.1,)))
                    },
                Err(error) => {
                    ||| rest_after == rest && exists|at: StreamState|
                        {
                            &&& #[trigger] parser.0.gets(after.0, from, at, Err(error))
                            &&& to == (StreamState { marks: from.marks, ..at })
                        }
                    ||| exists|at: StreamState, there: StreamState, output: A::Output|
                        {
                            &&& #[trigger] parser.0.gets(after.0, from, at, Ok(output))
                            &&& #[trigger] rest.gets(rest_after, at, there, Err(error))
                            &&& to == (StreamState { marks: from.marks, ..there })
                        }
                },
            }
        },
{
    let rest = (parser.1,);
    let rest_after = (after.1,);
    match r {
        Ok(output) => {
            let others = (output.1,);
            if parser.gets(after, from, to, r) {
                let at = choose|at: Seq<StreamState>|
                    {
                        &&& #[trigger] sequence::route(at, 1, 2, from, to, None)
                        &&& parser.0.gets(after.0, at[0], at[1], Ok(output.0))
                        &&& parser.1.gets(after.1, at[1], at[2], Ok(output.1))
                    };
                let tail = at.skip(1);
                assert(parser.0.gets(after.0, from, at[1], Ok(output.0)));
                assert(sequence::route(tail, 0, 1, at[1], to, None));
                assert(rest.gets(rest_after, at[1], to, Ok(others)));
            }
            assert forall|next: StreamState|
                {
                    &&& #[trigger] parser.0.gets(after.0, from, next, Ok(output.0))
                    &&& rest.gets(rest_after, next, to, Ok(others))
                } implies parser.gets(after, from, to, r) by {
                let tail = choose|tail: Seq<StreamState>|
                    {
                        &&& #[trigger] sequence::route(tail, 0, 1, next, to, None)
                        &&& parser.1.gets(after.1, tail[0], tail[1], Ok(output.1))
                    };
                let at = seq![from] + tail;
                assert(sequence::route(at, 1, 2, from, to, None));
            }
        },
        Err(error) => {
            if parser.gets(after, from, to, r) {
                let (at, last) = choose|at: Seq<StreamState>, last: int|
                    {
                        &&& #[trigger] sequence::undone(at, last, 2, from, to)
                        &&& sequence::tries(parser.0, after.0, at[0], at[1], 0, last, error)
                        &&& sequence::tries(parser.1, after.1, at[1], at[2], 1, last, error)
                    };
                if last == 0 {
                    assert(parser.0.gets(after.0, from, at[1], Err(error)));
                    assert(rest_after == rest);
                } else {
                    let output = choose|output: A::Output| #[trigger]
                        parser.0.gets(after.0, at[0], at[1], Ok(output));
                    let tail = at.skip(1);
                    let there = tail[last].with_marks(at[1].marks);
                    assert(sequence::undone(tail, last - 1, 1, at[1], there));
                    assert(rest.gets(rest_after, at[1], there, Err(error)));
                    assert(parser.0.gets(after.0, from, at[1], Ok(output)));
                }
            }
            if rest_after == rest {
                assert forall|at: StreamState|
                    {
                        &&& #[trigger] parser.0.gets(after.0, from, at, Err(error))
                        &&& to == (StreamState { marks: from.marks, ..at })
                    } implies parser.gets(after, from, to, r) by {
                    assert(sequence::undone(seq![from, at], 0, 2, from, to));
                }
            }
            assert forall|next: StreamState, there: StreamState, output: A::Output|
                {
                    &&& #[trigger] parser.0.gets(after.0, from, next, Ok(output))
                    &&& #[trigger] rest.gets(rest_after, next, there, Err(error))
                    &&& to == (StreamState { marks: from.marks, ..there })
                } implies parser.gets(after, from, to, r) by {
                let (tail, last) = choose|tail: Seq<StreamState>, last: int|
                    {
                        &&& #[trigger] sequence::undone(tail, last, 1, next, there)
                        &&& sequence::tries(parser.1, after.1, tail[0], tail[1], 0, last, error)
                    };
                let at = seq![from] + tail;
                assert(sequence::undone(at, last + 1, 2, from, to));
                assert(parser.0.gets(after.0, at[0], at[1], Ok(output)));
            }
        },
    }
}

/// A tuple of three parsers does what the first one does if that one fails, and what the tuple of
/// the others does from where the first one succeeded otherwise. It can be applied where that can.
pub proof fn law_sequence_of_three<
    A: Parser,
    B: Parser<Input = A::Input>,
    C: Parser<Input = A::Input>,
>(
    parser: (A, B, C),
    after: (A, B, C),
    from: StreamState,
    to: StreamState,
    error: Option<ParserError>,
)
    ensures
        parser.ready(from) <==> {
            let rest = (parser.1, parser.2);
            &&& parser.0.ready(from)
            &&& forall|next: A, at: StreamState| #[trigger]
                parser.0.parses(next, from, at, None) ==> rest.ready(at)
            &&& forall|next: A, at: StreamState, output: A::Output| #[trigger]
                parser.0.gets(next, from, at, Ok(output)) ==> rest.ready(at)
        },
        parser.parses(after, from, to, error) <==> {
            let rest = (parser.1, parser.2);
            let rest_after = (after.1, after.2);
            ||| error is Some && parser.0.parses(after.0, from, to, error) && rest_after == rest
            ||| exists|at: StreamState|
                {
                    &&& #[trigger] parser.0.parses(after.0, from, at, None)
                    &&& rest.parses(rest_after, at, to, error)
                }
        },
{
    let rest = (parser.1, parser.2);
    let rest_after = (after.1, after.2);
    if parser.parses(after, from, to, error) {
        let (at, last) = choose|at: Seq<StreamState>, last: int|
            {
                &&& #[trigger] sequence::route(at, last, 3, from, to, error)
                &&& sequence::step(parser.0, after.0, at[0], at[1], 0, last, error)
                &&& sequence::step(parser.1, after.1, at[1], at[2], 1, last, error)
                &&& sequence::step(parser.2, after.2, at[2], at[3], 2, last, error)
            };
        if last > 0 {
            let tail = at.skip(1);
            assert(parser.0.parses(after.0, from, at[1], None));
            assert(sequence::route(tail, last - 1, 2, at[1], to, error));
            assert(rest.parses(rest_after, at[1], to, error));
        }
    }
    if error is Some && parser.0.parses(after.0, from, to, error) && rest_after == rest {
        assert(sequence::route(seq![from, to], 0, 3, from, to, error));
    }
    assert forall|next: StreamState|
        {
            &&& #[trigger] parser.0.parses(after.0, from, next, None)
            &&& rest.parses(rest_after, next, to, error)
        } implies parser.parses(after, from, to, error) by {
        let (tail, last) = choose|tail: Seq<StreamState>, last: int|
            {
                &&& #[trigger] sequence::route(tail, last, 2, next, to, error)
                &&& sequence::step(parser.1, after.1, tail[0], tail[1], 0, last, error)
                &&& sequence::step(parser.2, after.2, tail[1], tail[2], 1, last, error)
            };
        let at = seq![from] + tail;
        assert(sequence::route(at, last + 1, 3, from, to, error));
    }
}

/// A tuple of three parsers gives the output of the first one and those of the tuple of the others,
/// which is applied while the output of the first one keeps what it holds. If one fails, what the
/// outputs hold is given back.
pub proof fn law_sequence_of_three_gives_all<
    A: Parser,
    B: Parser<Input = A::Input>,
    C: Parser<Input = A::Input>,
>(
    parser: (A, B, C),
    after: (A, B, C),
    from: StreamState,
    to: StreamState,
    r: Result<(A::Output, B::Output, C::Output), ParserError>,
)
    ensures
        parser.gets(after, from, to, r) <==> {
            let rest = (parser.1, parser.2);
            let rest_after = (after.1, after.2);
            match r {
                Ok(output) => exists|at: StreamState|
                    {
                        &&& #[trigger] parser.0.gets(after.0, from, at, Ok(output.0))
                        &&& rest.gets(rest_after, at, to, Ok((output.1, output.2)))
                    },
                Err(error) => {
                    ||| rest_after == rest && exists|at: StreamState|
                        {
                            &&& #[trigger] parser.0.gets(after.0, from, at, Err(error))
                            &&& to == (StreamState { marks: from.marks, ..at })
                        }
                    ||| exists|at: StreamState, there: StreamState, output: A::Output|
                        {
                            &&& #[trigger] parser.0.gets(after.0, from, at, Ok(output))
                            &&& #[trigger] rest.gets(rest_after, at, there, Err(error))
                            &&& to == (StreamState { marks: from.marks, ..there })
                        }
                },
            }
        },
{
    let rest = (parser.1, parser.2);
    let rest_after = (after.1, after.2);
    match r {
        Ok(output) => {
            let others = (output.1, output.2);
            if parser.gets(after, from, to, r) {
                let at = choose|at: Seq<StreamState>|
                    {
                        &&& #[trigger] sequence::route(at, 2, 3, from, to, None)
                        &&& parser.0.gets(after.0, at[0], at[1], Ok(output.0))
                        &&& parser.1.gets(after.1, at[1], at[2], Ok(output.1))
                        &&& parser.2.gets(after.2, at[2], at[3], Ok(output.2))
                    };
                let tail = at.skip(1);
                assert(parser.0.gets(after.0, from, at[1], Ok(output.0)));
                assert(sequence::route(tail, 1, 2, at[1], to, None));
                assert(rest.gets(rest_after, at[1], to, Ok(others)));
            }
            assert forall|next: StreamState|
                {
                    &&& #[trigger] parser.0.gets(after.0, from, next, Ok(output.0))
                    &&& rest.gets(rest_after, next, to, Ok(others))
                } implies parser.gets(after, from, to, r) by {
                let tail = choose|tail: Seq<StreamState>|
                    {
                        &&& #[trigger] sequence::route(tail, 1, 2, next, to, None)
                        &&& parser.1.gets(after.1, tail[0], tail[1], Ok(output.1))
                        &&& parser.2.gets(after.2, tail[1], tail[2], Ok(output.2))
                    };
                let at = seq![from] + tail;
                assert(sequence::route(at, 2, 3, from, to, None));
            }
        },
        Err(error) => {
            if parser.gets(after, from, to, r) {
                let (at, last) = choose|at: Seq<StreamState>, last: int|
                    {
                        &&& #[trigger] sequence::undone(at, last, 3, from, to)
                        &&& sequence::tries(parser.0, after.0, at[0], at[1], 0, last, error)
                        &&& sequence::tries(parser.1, after.1, at[1], at[2], 1, last, error)
                        &&& sequence::tries(parser.2, after.2, at[2], at[3], 2, last, error)
                    };
                if last == 0 {
                    assert(parser.0.gets(after.0, from, at[1], Err(error)));
                    assert(rest_after == rest);
                } else {
                    let output = choose|output: A::Output| #[trigger]
                        parser.0.gets(after.0, at[0], at[1], Ok(output));
                    let tail = at.skip(1);
                    let there = tail[last].with_marks(at[1].marks);
                    assert(sequence::undone(tail, last - 1, 2, at[1], there));
                    assert(rest.gets(rest_after, at[1], there, Err(error)));
                    assert(parser.0.gets(after.0, from, at[1], Ok(output)));
                }
            }
            if rest_after == rest {
                assert forall|at: StreamState|
                    {
                        &&& #[trigger] parser.0.gets(after.0, from, at, Err(error))
                        &&& to == (StreamState { marks: from.marks, ..at })
                    } implies parser.gets(after, from, to, r) by {
                    assert(sequence::undone(seq![from, at], 0, 3, from, to));
                }
            }
            assert forall|next: StreamState, there: StreamState, output: A::Output|
                {
                    &&& #[trigger] parser.0.gets(after.0, from, next, Ok(output))
                    &&& #[trigger] rest.gets(rest_after, next, there, Err(error))
                    &&& to == (StreamState { marks: from.marks, ..there })
                } implies parser.gets(after, from, to, r) by {
                let (tail, last) = choose|tail: Seq<StreamState>, last: int|
                    {
                        &&& #[trigger] sequence::undone(tail, last, 2, next, there)
                        &&& sequence::tries(parser.1, after.1, tail[0], tail[1], 0, last, error)
                        &&& sequence::tries(parser.2, after.2, tail[1], tail[2], 1, last, error)
                    };
                let at = seq![from] + tail;
                assert(sequence::undone(at, last + 1, 3, from, to));
                assert(parser.0.gets(after.0, at[0], at[1], Ok(output)));
            }
        },
    }
}

/// A tuple of four parsers does what the first one does if that one fails, and what the tuple of
/// the others does from where the first one succeeded otherwise. It can be applied where that can.
pub proof fn law_sequence_of_four<
    A: Parser,
    B: Parser<Input = A::Input>,
    C: Parser<Input = A::Input>,
    D: Parser<Input = A::Input>,
>(
    parser: (A, B, C, D),
    after: (A, B, C, D),
    from: StreamState,
    to: StreamState,
    error: Option<ParserError>,
)
    ensures
        parser.ready(from) <==> {
            let rest = (parser.1, parser.2, parser.3);
            &&& parser.0.ready(from)
            &&& forall|next: A, at: StreamState| #[trigger]
                parser.0.parses(next, from, at, None) ==> rest.ready(at)
            &&& forall|next: A, at: StreamState, output: A::Output| #[trigger]
                parser.0.gets(next, from, at, Ok(output)) ==> rest.ready(at)
        },
        parser.parses(after, from, to, error) <==> {
            let rest = (parser.1, parser.2, parser.3);
            let rest_after = (after.1, after.2, after.3);
            ||| error is Some && parser.0.parses(after.0, from, to, error) && rest_after == rest
            ||| exists|at: StreamState|
                {
                    &&& #[trigger] parser.0.parses(after.0, from, at, None)
                    &&& rest.parses(rest_after, at, to, error)
                }
        },
{
    let rest = (parser.1, parser.2, parser.3);
    let rest_after = (after.1, after.2, after.3);
    if parser.parses(after, from, to, error) {
        let (at, last) = choose|at: Seq<StreamState>, last: int|
            {
                &&& #[trigger] sequence::route(at, last, 4, from, to, error)
                &&& sequence::step(parser.0, after.0, at[0], at[1], 0, last, error)
                &&& sequence::step(parser.1, after.1, at[1], at[2], 1, last, error)
                &&& sequence::step(parser.2, after.2, at[2], at[3], 2, last, error)
                &&& sequence::step(parser.3, after.3, at[3], at[4], 3, last, error)
            };
        if last > 0 {
            let tail = at.skip(1);
            assert(parser.0.parses(after.0, from, at[1], None));
            assert(sequence::route(tail, last - 1, 3, at[1], to, error));
            assert(rest.parses(rest_after, at[1], to, error));
        }
    }
    if error is Some && parser.0.parses(after.0, from, to, error) && rest_after == rest {
        assert(sequence::route(seq![from, to], 0, 4, from, to, error));
    }
    assert forall|next: StreamState|
        {
            &&& #[trigger] parser.0.parses(after.0, from, next, None)
            &&& rest.parses(rest_after, next, to, error)
        } implies parser.parses(after, from, to, error) by {
        let (tail, last) = choose|tail: Seq<StreamState>, last: int|
            {
                &&& #[trigger] sequence::route(tail, last, 3, next, to, error)
                &&& sequence::step(parser.1, after.1, tail[0], tail[1], 0, last, error)
                &&& sequence::step(parser.2, after.2, tail[1], tail[2], 1, last, error)
                &&& sequence::step(parser.3, after.3, tail[2], tail[3], 2, last, error)
            };
        let at = seq![from] + tail;
        assert(sequence::route(at, last + 1, 4, from, to, error));
    }
}

/// A tuple of four parsers gives the output of the first one and those of the tuple of the others,
/// which is applied while the output of the first one keeps what it holds. If one fails, what the
/// outputs hold is given back.
pub proof fn law_sequence_of_four_gives_all<
    A: Parser,
    B: Parser<Input = A::Input>,
    C: Parser<Input = A::Input>,
    D: Parser<Input = A::Input>,
>(
    parser: (A, B, C, D),
    after: (A, B, C, D),
    from: StreamState,
    to: StreamState,
    r: Result<(A::Output, B::Output, C::Output, D::Output), ParserError>,
)
    ensures
        parser.gets(after, from, to, r) <==> {
            let rest = (parser.1, parser.2, parser.3);
            let rest_after = (after.1, after.2, after.3);
            match r {
                Ok(output) => exists|at: StreamState|
                    {
                        &&& #[trigger] parser.0.gets(after.0, from, at, Ok(output.0))
                        &&& rest.gets(rest_after, at, to, Ok((output.1, output.2, output.3)))
                    },
                Err(error) => {
                    ||| rest_after == rest && exists|at: StreamState|
                        {
                            &&& #[trigger] parser.0.gets(after.0, from, at, Err(error))
                            &&& to == (StreamState { marks: from.marks, ..at })
                        }
                    ||| exists|at: StreamState, there: StreamState, output: A::Output|
                        {
                            &&& #[trigger] parser.0.gets(after.0, from, at, Ok(output))
                            &&& #[trigger] rest.gets(rest_after, at, there, Err(error))
                            &&& to == (StreamState { marks: from.marks, ..there })
                        }
                },
            }
        },
{
    let rest = (parser.1, parser.2, parser.3);
    let rest_after = (after.1, after.2, after.3);
    match r {
        Ok(output) => {
            let others = (output.1, output.2, output.3);
            if parser.gets(after, from, to, r) {
                let at = choose|at: Seq<StreamState>|
                    {
                        &&& #[trigger] sequence::route(at, 3, 4, from, to, None)
                        &&& parser.0.gets(after.0, at[0], at[1], Ok(output.0))
                        &&& parser.1.gets(after.1, at[1], at[2], Ok(output.1))
                        &&& parser.2.gets(after.2, at[2], at[3], Ok(output.2))
                        &&& parser.3.gets(after.3, at[3], at[4], Ok(output.3))
                    };
                let tail = at.skip(1);
                assert(parser.0.gets(after.0, from, at[1], Ok(output.0)));
                assert(sequence::route(tail, 2, 3, at[1], to, None));
                assert(rest.gets(rest_after, at[1], to, Ok(others)));
            }
            assert forall|next: StreamState|
                {
                    &&& #[trigger] parser.0.gets(after.0, from, next, Ok(output.0))
                    &&& rest.gets(rest_after, next, to, Ok(others))
                } implies parser.gets(after, from, to, r) by {
                let tail = choose|tail: Seq<StreamState>|
                    {
                        &&& #[trigger] sequence::route(tail, 2, 3, next, to, None)
                        &&& parser.1.gets(after.1, tail[0], tail[1], Ok(output.1))
                        &&& parser.2.gets(after.2, tail[1], tail[2], Ok(output.2))
                        &&& parser.3.gets(after.3, tail[2], tail[3], Ok(output.3))
                    };
                let at = seq![from] + tail;
                assert(sequence::route(at, 3, 4, from, to, None));
            }
        },
        Err(error) => {
            if parser.gets(after, from, to, r) {
                let (at, last) = choose|at: Seq<StreamState>, last: int|
                    {
                        &&& #[trigger] sequence::undone(at, last, 4, from, to)
                        &&& sequence::tries(parser.0, after.0, at[0], at[1], 0, last, error)
                        &&& sequence::tries(parser.1, after.1, at[1], at[2], 1, last, error)
                        &&& sequence::tries(parser.2, after.2, at[2], at[3], 2, last, error)
                        &&& sequence::tries(parser.3, after.3, at[3], at[4], 3, last, error)
                    };
                if last == 0 {
                    assert(parser.0.gets(after.0, from, at[1], Err(error)));
                    assert(rest_after == rest);
                } else {
                    let output = choose|output: A::Output| #[trigger]
                        parser.0.gets(after.0, at[0], at[1], Ok(output));
                    let tail = at.skip(1);
                    let there = tail[last].with_marks(at[1].marks);
                    assert(sequence::undone(tail, last - 1, 3, at[1], there));
                    assert(rest.gets(rest_after, at[1], there, Err(error)));
                    assert(parser.0.gets(after.0, from, at[1], Ok(output)));
                }
            }
            if rest_after == rest {
                assert forall|at: StreamState|
                    {
                        &&& #[trigger] parser.0.gets(after.0, from, at, Err(error))
                        &&& to == (StreamState { marks: from.marks, ..at })
                    } implies parser.gets(after, from, to, r) by {
                    assert(sequence::undone(seq![from, at], 0, 4, from, to));
                }
            }
            assert forall|next: StreamState, there: StreamState, output: A::Output|
                {
                    &&& #[trigger] parser.0.gets(after.0, from, next, Ok(output))
                    &&& #[trigger] rest.gets(rest_after, next, there, Err(error))
                    &&& to == (StreamState { marks: from.marks, ..there })
                } implies parser.gets(after, from, to, r) by {
                let (tail, last) = choose|tail: Seq<StreamState>, last: int|
                    {
                        &&& #[trigger] sequence::undone(tail, last, 3, next, there)
                        &&& sequence::tries(parser.1, after.1, tail[0], tail[1], 0, last, error)
                        &&& sequence::tries(parser.2, after.2, tail[1], tail[2], 1, last, error)
                        &&& sequence::tries(parser.3, after.3, tail[2], tail[3], 2, last, error)
                    };
                let at = seq![from] + tail;
                assert(sequence::undone(at, last + 1, 4, from, to));
                assert(parser.0.gets(after.0, at[0], at[1], Ok(output)));
            }
        },
    }
}

/// A tuple of five parsers does what the first one does if that one fails, and what the tuple of
/// the others does from where the first one succeeded otherwise. It can be applied where that can.
pub proof fn law_sequence_of_five<
    A: Parser,
    B: Parser<Input = A::Input>,
    C: Parser<Input = A::Input>,
    D: Parser<Input = A::Input>,
    E: Parser<Input = A::Input>,
>(
    parser: (A, B, C, D, E),
    after: (A, B, C, D, E),
    from: StreamState,
    to: StreamState,
    error: Option<ParserError>,
)
    ensures
        parser.ready(from) <==> {
            let rest = (parser.1, parser.2, parser.3, parser.4);
            &&& parser.0.ready(from)
            &&& forall|next: A, at: StreamState| #[trigger]
                parser.0.parses(next, from, at, None) ==> rest.ready(at)
            &&& forall|next: A, at: StreamState, output: A::Output| #[trigger]
                parser.0.gets(next, from, at, Ok(output)) ==> rest.ready(at)
        },
        parser.parses(after, from, to, error) <==> {
            let rest = (parser.1, parser.2, parser.3, parser.4);
            let rest_after = (after.1, after.2, after.3, after.4);
            ||| error is Some && parser.0.parses(after.0, from, to, error) && rest_after == rest
            ||| exists|at: StreamState|
                {
                    &&& #[trigger] parser.0.parses(after.0, from, at, None)
                    &&& rest.parses(rest_after, at, to, error)
                }
        },
{
    let rest = (parser.1, parser.2, parser.3, parser.4);
    let rest_after = (after.1, after.2, after.3, after.4);
    if parser.parses(after, from, to, error) {
        let (at, last) = choose|at: Seq<StreamState>, last: int|
            {
                &&& #[trigger] sequence::route(at, last, 5, from, to, error)
                &&& sequence::step(parser.0, after.0, at[0], at[1], 0, last, error)
                &&& sequence::step(parser.1, after.1, at[1], at[2], 1, last, error)
                &&& sequence::step(parser.2, after.2, at[2], at[3], 2, last, error)
                &&& sequence::step(parser.3, after.3, at[3], at[4], 3, last, error)
                &&& sequence::step(parser.4, after.4, at[4], at[5], 4, last, error)
            };
        if last > 0 {
            let tail = at.skip(1);
            assert(parser.0.parses(after.0, from, at[1], None));
            assert(sequence::route(tail, last - 1, 4, at[1], to, error));
            assert(rest.parses(rest_after, at[1], to, error));
        }
    }
    if error is Some && parser.0.parses(after.0, from, to, error) && rest_after == rest {
        assert(sequence::route(seq![from, to], 0, 5, from, to, error));
    }
    assert forall|next: StreamState|
        {
            &&& #[trigger] parser.0.parses(after.0, from, next, None)
            &&& rest.parses(rest_after, next, to, error)
        } implies parser.parses(after, from, to, error) by {
        let (tail, last) = choose|tail: Seq<StreamState>, last: int|
            {
                &&& #[trigger] sequence::route(tail, last, 4, next, to, error)
                &&& sequence::step(parser.1, after.1, tail[0], tail[1], 0, last, error)
                &&& sequence::step(parser.2, after.2, tail[1], tail[2], 1, last, error)
                &&& sequence::step(parser.3, after.3, tail[2], tail[3], 2, last, error)
                &&& sequence::step(parser.4, after.4, tail[3], tail[4], 3, last, error)
            };
        let at = seq![from] + tail;
        assert(sequence::route(at, last + 1, 5, from, to, error));
    }
}

/// A tuple of five parsers gives the output of the first one and those of the tuple of the others,
/// which is applied while the output of the first one keeps what it holds. If one fails, what the
/// outputs hold is given back.
pub proof fn law_sequence_of_five_gives_all<
    A: Parser,
    B: Parser<Input = A::Input>,
    C: Parser<Input = A::Input>,
    D: Parser<Input = A::Input>,
    E: Parser<Input = A::Input>,
>(
    parser: (A, B, C, D, E),
    after: (A, B, C, D, E),
    from: StreamState,
    to: StreamState,
    r: Result<(A::Output, B::Output, C::Output, D::Output, E::Output), ParserError>,
)
    ensures
        parser.gets(after, from, to, r) <==> {
            let rest = (parser.1, parser.2, parser.3, parser.4);
            let rest_after = (after.1, after.2, after.3, after.4);
            match r {
                Ok(output) => exists|at: StreamState|
                    {
                        &&& #[trigger] parser.0.gets(after.0, from, at, Ok(output.0))
                        &&& rest.gets(rest_after, at, to, Ok((
                            output.1,
                            output.2,
                            output.3,
                            output.4,
                        )))
                    },
                Err(error) => {
                    ||| rest_after == rest && exists|at: StreamState|
                        {
                            &&& #[trigger] parser.0.gets(after.0, from, at, Err(error))
                            &&& to == (StreamState { marks: from.marks, ..at })
                        }
                    ||| exists|at: StreamState, there: StreamState, output: A::Output|
                        {
                            &&& #[trigger] parser.0.gets(after.0, from, at, Ok(output))
                            &&& #[trigger] rest.gets(rest_after, at, there, Err(error))
                            &&& to == (StreamState { marks: from.marks, ..there })
                        }
                },
            }
        },
{
    let rest = (parser.1, parser.2, parser.3, parser.4);
    let rest_after = (after.1, after.2, after.3, after.4);
    match r {
        Ok(output) => {
            let others = (output.1, output.2, output.3, output.4);
            if parser.gets(after, from, to, r) {
                let at = choose|at: Seq<StreamState>|
                    {
                        &&& #[trigger] sequence::route(at, 4, 5, from, to, None)
                        &&& parser.0.gets(after.0, at[0], at[1], Ok(output.0))
                        &&& parser.1.gets(after.1, at[1], at[2], Ok(output.1))
                        &&& parser.2.gets(after.2, at[2], at[3], Ok(output.2))
                        &&& parser.3.gets(after.3, at[3], at[4], Ok(output.3))
                        &&& parser.4.gets(after.4, at[4], at[5], Ok(output.4))
                    };
                let tail = at.skip(1);
                assert(parser.0.gets(after.0, from, at[1], Ok(output.0)));
                assert(sequence::route(tail, 3, 4, at[1], to, None));
                assert(rest.gets(rest_after, at[1], to, Ok(others)));
            }
            assert forall|next: StreamState|
                {
                    &&& #[trigger] parser.0.gets(after.0, from, next, Ok(output.0))
                    &&& rest.gets(rest_after, next, to, Ok(others))
                } implies parser.gets(after, from, to, r) by {
                let tail = choose|tail: Seq<StreamState>|
                    {
                        &&& #[trigger] sequence::route(tail, 3, 4, next, to, None)
                        &&& parser.1.gets(after.1, tail[0], tail[1], Ok(output.1))
                        &&& parser.2.gets(after.2, tail[1], tail[2], Ok(output.2))
                        &&& parser.3.gets(after.3, tail[2], tail[3], Ok(output.3))
                        &&& parser.4.gets(after.4, tail[3], tail[4], Ok(output.4))
                    };
                let at = seq![from] + tail;
                assert(sequence::route(at, 4, 5, from, to, None));
            }
        },
        Err(error) => {
            if parser.gets(after, from, to, r) {
                let (at, last) = choose|at: Seq<StreamState>, last: int|
                    {
                        &&& #[trigger] sequence::undone(at, last, 5, from, to)
                        &&& sequence::tries(parser.0, after.0, at[0], at[1], 0, last, error)
                        &&& sequence::tries(parser.1, after.1, at[1], at[2], 1, last, error)
                        &&& sequence::tries(parser.2, after.2, at[2], at[3], 2, last, error)
                        &&& sequence::tries(parser.3, after.3, at[3], at[4], 3, last, error)
                        &&& sequence::tries(parser.4, after.4, at[4], at[5], 4, last, error)
                    };
                if last == 0 {
                    assert(parser.0.gets(after.0, from, at[1], Err(error)));
                    assert(rest_after == rest);
                } else {
                    let output = choose|output: A::Output| #[trigger]
                        parser.0.gets(after.0, at[0], at[1], Ok(output));
                    let tail = at.skip(1);
                    let there = tail[last].with_marks(at[1].marks);
                    assert(sequence::undone(tail, last - 1, 4, at[1], there));
                    assert(rest.gets(rest_after, at[1], there, Err(error)));
                    assert(parser.0.gets(after.0, from, at[1], Ok(output)));
                }
            }
            if rest_after == rest {
                assert forall|at: StreamState|
                    {
                        &&& #[trigger] parser.0.gets(after.0, from, at, Err(error))
                        &&& to == (StreamState { marks: from.marks, ..at })
                    } implies parser.gets(after, from, to, r) by {
                    assert(sequence::undone(seq![from, at], 0, 5, from, to));
                }
            }
            assert forall|next: StreamState, there: StreamState, output: A::Output|
                {
                    &&& #[trigger] parser.0.gets(after.0, from, next, Ok(output))
                    &&& #[trigger] rest.gets(rest_after, next, there, Err(error))
                    &&& to == (StreamState { marks: from.marks, ..there })
                } implies parser.gets(after, from, to, r) by {
                let (tail, last) = choose|tail: Seq<StreamState>, last: int|
                    {
                        &&& #[trigger] sequence::undone(tail, last, 4, next, there)
                        &&& sequence::tries(parser.1, after.1, tail[0], tail[1], 0, last, error)
                        &&& sequence::tries(parser.2, after.2, tail[1], tail[2], 1, last, error)
                        &&& sequence::tries(parser.3, after.3, tail[2], tail[3], 2, last, error)
                        &&& sequence::tries(parser.4, after.4, tail[3], tail[4], 3, last, error)
                    };
                let at = seq![from] + tail;
                assert(sequence::undone(at, last + 1, 5, from, to));
                assert(parser.0.gets(after.0, at[0], at[1], Ok(output)));
            }
        },
    }
}

/// A tuple of six parsers does what the first one does if that one fails, and what the tuple of the
/// others does from where the first one succeeded otherwise. It can be applied where that can.
pub proof fn law_sequence_of_six<
    A: Parser,
    B: Parser<Input = A::Input>,
    C: Parser<Input = A::Input>,
    D: Parser<Input = A::Input>,
    E: Parser<Input = A::Input>,
    F: Parser<Input = A::Input>,
>(
    parser: (A, B, C, D, E, F),
    after: (A, B, C, D, E, F),
    from: StreamState,
    to: StreamState,
    error: Option<ParserError>,
)
    ensures
        parser.ready(from) <==> {
            let rest = (parser.1, parser.2, parser.3, parser.4, parser.5);
            &&& parser.0.ready(from)
            &&& forall|next: A, at: StreamState| #[trigger]
                parser.0.parses(next, from, at, None) ==> rest.ready(at)
            &&& forall|next: A, at: StreamState, output: A::Output| #[trigger]
                parser.0.gets(next, from, at, Ok(output)) ==> rest.ready(at)
        },
        parser.parses(after, from, to, error) <==> {
            let rest = (parser.1, parser.2, parser.3, parser.4, parser.5);
            let rest_after = (after.1, after.2, after.3, after.4, after.5);
            ||| error is Some && parser.0.parses(after.0, from, to, error) && rest_after == rest
            ||| exists|at: StreamState|
                {
                    &&& #[trigger] parser.0.parses(after.0, from, at, None)
                    &&& rest.parses(rest_after, at, to, error)
                }
        },
{
    let rest = (parser.1, parser.2, parser.3, parser.4, parser.5);
    let rest_after = (after.1, after.2, after.3, after.4, after.5);
    if parser.parses(after, from, to, error) {
        let (at, last) = choose|at: Seq<StreamState>, last: int|
            {
                &&& #[trigger] sequence::route(at, last, 6, from, to, error)
                &&& sequence::step(parser.0, after.0, at[0], at[1], 0, last, error)
                &&& sequence::step(parser.1, after.1, at[1], at[2], 1, last, error)
                &&& sequence::step(parser.2, after.2, at[2], at[3], 2, last, error)
                &&& sequence::step(parser.3, after.3, at[3], at[4], 3, last, error)
                &&& sequence::step(parser.4, after.4, at[4], at[5], 4, last, error)
                &&& sequence::step(parser.5, after.5, at[5], at[6], 5, last, error)
            };
        if last > 0 {
            let tail = at.skip(1);
            assert(parser.0.parses(after.0, from, at[1], None));
            assert(sequence::route(tail, last - 1, 5, at[1], to, error));
            assert(rest.parses(rest_after, at[1], to, error));
        }
    }
    if error is Some && parser.0.parses(after.0, from, to, error) && rest_after == rest {
        assert(sequence::route(seq![from, to], 0, 6, from, to, error));
    }
    assert forall|next: StreamState|
        {
            &&& #[trigger] parser.0.parses(after.0, from, next, None)
            &&& rest.parses(rest_after, next, to, error)
        } implies parser.parses(after, from, to, error) by {
        let (tail, last) = choose|tail: Seq<StreamState>, last: int|
            {
                &&& #[trigger] sequence::route(tail, last, 5, next, to, error)
                &&& sequence::step(parser.1, after.1, tail[0], tail[1], 0, last, error)
                &&& sequence::step(parser.2, after.2, tail[1], tail[2], 1, last, error)
                &&& sequence::step(parser.3, after.3, tail[2], tail[3], 2, last, error)
                &&& sequence::step(parser.4, after.4, tail[3], tail[4], 3, last, error)
                &&& sequence::step(parser.5, after.5, tail[4], tail[5], 4, last, error)
            };
        let at = seq![from] + tail;
        assert(sequence::route(at, last + 1, 6, from, to, error));
    }
}

/// A tuple of six parsers gives the output of the first one and those of the tuple of the others,
/// which is applied while the output of the first one keeps what it holds. If one fails, what the
/// outputs hold is given back.
pub proof fn law_sequence_of_six_gives_all<
    A: Parser,
    B: Parser<Input = A::Input>,
    C: Parser<Input = A::Input>,
    D: Parser<Input = A::Input>,
    E: Parser<Input = A::Input>,
    F: Parser<Input = A::Input>,
>(
    parser: (A, B, C, D, E, F),
    after: (A, B, C, D, E, F),
    from: StreamState,
    to: StreamState,
    r: Result<(A::Output, B::Output, C::Output, D::Output, E::Output, F::Output), ParserError>,
)
    ensures
        parser.gets(after, from, to, r) <==> {
            let rest = (parser.1, parser.2, parser.3, parser.4, parser.5);
            let rest_after = (after.1, after.2, after.3, after.4, after.5);
            match r {
                Ok(output) => exists|at: StreamState|
                    {
                        &&& #[trigger] parser.0.gets(after.0, from, at, Ok(output.0))
                        &&& rest.gets(rest_after, at, to, Ok((
                            output.1,
                            output.2,
                            output.3,
                            output.4,
                            output.5,
                        )))
                    },
                Err(error) => {
                    ||| rest_after == rest && exists|at: StreamState|
                        {
                            &&& #[trigger] parser.0.gets(after.0, from, at, Err(error))
                            &&& to == (StreamState { marks: from.marks, ..at })
                        }
                    ||| exists|at: StreamState, there: StreamState, output: A::Output|
                        {
                            &&& #[trigger] parser.0.gets(after.0, from, at, Ok(output))
                            &&& #[trigger] rest.gets(rest_after, at, there, Err(error))
                            &&& to == (StreamState { marks: from.marks, ..there })
                        }
                },
            }
        },
{
    let rest = (parser.1, parser.2, parser.3, parser.4, parser.5);
    let rest_after = (after.1, after.2, after.3, after.4, after.5);
    match r {
        Ok(output) => {
            let others = (output.1, output.2, output.3, output.4, output.5);
            if parser.gets(after, from, to, r) {
                let at = choose|at: Seq<StreamState>|
                    {
                        &&& #[trigger] sequence::route(at, 5, 6, from, to, None)
                        &&& parser.0.gets(after.0, at[0], at[1], Ok(output.0))
                        &&& parser.1.gets(after.1, at[1], at[2], Ok(output.1))
                        &&& parser.2.gets(after.2, at[2], at[3], Ok(output.2))
                        &&& parser.3.gets(after.3, at[3], at[4], Ok(output.3))
                        &&& parser.4.gets(after.4, at[4], at[5], Ok(output.4))
                        &&& parser.5.gets(after.5, at[5], at[6], Ok(output.5))
                    };
                let tail = at.skip(1);
                assert(parser.0.gets(after.0, from, at[1], Ok(output.0)));
                assert(sequence::route(tail, 4, 5, at[1], to, None));
                assert(rest.gets(rest_after, at[1], to, Ok(others)));
            }
            assert forall|next: StreamState|
                {
                    &&& #[trigger] parser.0.gets(after.0, from, next, Ok(output.0))
                    &&& rest.gets(rest_after, next, to, Ok(others))
                } implies parser.gets(after, from, to, r) by {
                let tail = choose|tail: Seq<StreamState>|
                    {
                        &&& #[trigger] sequence::route(tail, 4, 5, next, to, None)
                        &&& parser.1.gets(after.1, tail[0], tail[1], Ok(output.1))
                        &&& parser.2.gets(after.2, tail[1], tail[2], Ok(output.2))
                        &&& parser.3.gets(after.3, tail[2], tail[3], Ok(output.3))
                        &&& parser.4.gets(after.4, tail[3], tail[4], Ok(output.4))
                        &&& parser.5.gets(after.5, tail[4], tail[5], Ok(output.5))
                    };
                let at = seq![from] + tail;
                assert(sequence::route(at, 5, 6, from, to, None));
            }
        },
        Err(error) => {
            if parser.gets(after, from, to, r) {
                let (at, last) = choose|at: Seq<StreamState>, last: int|
                    {
                        &&& #[trigger] sequence::undone(at, last, 6, from, to)
                        &&& sequence::tries(parser.0, after.0, at[0], at[1], 0, last, error)
                        &&& sequence::tries(parser.1, after.1, at[1], at[2], 1, last, error)
                        &&& sequence::tries(parser.2, after.2, at[2], at[3], 2, last, error)
                        &&& sequence::tries(parser.3, after.3, at[3], at[4], 3, last, error)
                        &&& sequence::tries(parser.4, after.4, at[4], at[5], 4, last, error)
                        &&& sequence::tries(parser.5, after.5, at[5], at[6], 5, last, error)
                    };
                if last == 0 {
                    assert(parser.0.gets(after.0, from, at[1], Err(error)));
                    assert(rest_after == rest);
                } else {
                    let output = choose|output: A::Output| #[trigger]
                        parser.0.gets(after.0, at[0], at[1], Ok(output));
                    let tail = at.skip(1);
                    let there = tail[last].with_marks(at[1].marks);
                    assert(sequence::undone(tail, last - 1, 5, at[1], there));
                    assert(rest.gets(rest_after, at[1], there, Err(error)));
                    assert(parser.0.gets(after.0, from, at[1], Ok(output)));
                }
            }
            if rest_after == rest {
                assert forall|at: StreamState|
                    {
                        &&& #[trigger] parser.0.gets(after.0, from, at, Err(error))
                        &&& to == (StreamState { marks: from.marks, ..at })
                    } implies parser.gets(after, from, to, r) by {
                    assert(sequence::undone(seq![from, at], 0, 6, from, to));
                }
            }
            assert forall|next: StreamState, there: StreamState, output: A::Output|
                {
                    &&& #[trigger] parser.0.gets(after.0, from, next, Ok(output))
                    &&& #[trigger] rest.gets(rest_after, next, there, Err(error))
                    &&& to == (StreamState { marks: from.marks, ..there })
                } implies parser.gets(after, from, to, r) by {
                let (tail, last) = choose|tail: Seq<StreamState>, last: int|
                    {
                        &&& #[trigger] sequence::undone(tail, last, 5, next, there)
                        &&& sequence::tries(parser.1, after.1, tail[0], tail[1], 0, last, error)
                        &&& sequence::tries(parser.2, after.2, tail[1], tail[2], 1, last, error)
                        &&& sequence::tries(parser.3, after.3, tail[2], tail[3], 2, last, error)
                        &&& sequence::tries(parser.4, after.4, tail[3], tail[4], 3, last, error)
                        &&& sequence::tries(parser.5, after.5, tail[4], tail[5], 4, last, error)
                    };
                let at = seq![from] + tail;
                assert(sequence::undone(at, last + 1, 6, from, to));
                assert(parser.0.gets(after.0, at[0], at[1], Ok(output)));
            }
        },
    }
}

/// A tuple of seven parsers does what the first one does if that one fails, and what the tuple of
/// the others does from where the first one succeeded otherwise. It can be applied where that can.
pub proof fn law_sequence_of_seven<
    A: Parser,
    B: Parser<Input = A::Input>,
    C: Parser<Input = A::Input>,
    D: Parser<Input = A::Input>,
    E: Parser<Input = A::Input>,
    F: Parser<Input = A::Input>,
    G: Parser<Input = A::Input>,
>(
    parser: (A, B, C, D, E, F, G),
    after: (A, B, C, D, E, F, G),
    from: StreamState,
    to: StreamState,
    error: Option<ParserError>,
)
    ensures
        parser.ready(from) <==> {
            let rest = (parser.1, parser.2, parser.3, parser.4, parser.5, parser.6);
            &&& parser.0.ready(from)
            &&& forall|next: A, at: StreamState| #[trigger]
                parser.0.parses(next, from, at, None) ==> rest.ready(at)
            &&& forall|next: A, at: StreamState, output: A::Output| #[trigger]
                parser.0.gets(next, from, at, Ok(output)) ==> rest.ready(at)
        },
        parser.parses(after, from, to, error) <==> {
            let rest = (parser.1, parser.2, parser.3, parser.4, parser.5, parser.6);
            let rest_after = (after.1, after.2, after.3, after.4, after.5, after.6);
            ||| error is Some && parser.0.parses(after.0, from, to, error) && rest_after == rest
            ||| exists|at: StreamState|
                {
                    &&& #[trigger] parser.0.parses(after.0, from, at, None)
                    &&& rest.parses(rest_after, at, to, error)
                }
        },
{
    let rest = (parser.1, parser.2, parser.3, parser.4, parser.5, parser.6);
    let rest_after = (after.1, after.2, after.3, after.4, after.5, after.6);
    if parser.parses(after, from, to, error) {
        let (at, last) = choose|at: Seq<StreamState>, last: int|
            {
                &&& #[trigger] sequence::route(at, last, 7, from, to, error)
                &&& sequence::step(parser.0, after.0, at[0], at[1], 0, last, error)
                &&& sequence::step(parser.1, after.1, at[1], at[2], 1, last, error)
                &&& sequence::step(parser.2, after.2, at[2], at[3], 2, last, error)
                &&& sequence::step(parser.3, after.3, at[3], at[4], 3, last, error)
                &&& sequence::step(parser.4, after.4, at[4], at[5], 4, last, error)
                &&& sequence::step(parser.5, after.5, at[5], at[6], 5, last, error)
                &&& sequence::step(parser.6, after.6, at[6], at[7], 6, last, error)
            };
        if last > 0 {
            let tail = at.skip(1);
            assert(parser.0.parses(after.0, from, at[1], None));
            assert(sequence::route(tail, last - 1, 6, at[1], to, error));
            assert(rest.parses(rest_after, at[1], to, error));
        }
    }
    if error is Some && parser.0.parses(after.0, from, to, error) && rest_after == rest {
        assert(sequence::route(seq![from, to], 0, 7, from, to, error));
    }
    assert forall|next: StreamState|
        {
            &&& #[trigger] parser.0.parses(after.0, from, next, None)
            &&& rest.parses(rest_after, next, to, error)
        } implies parser.parses(after, from, to, error) by {
        let (tail, last) = choose|tail: Seq<StreamState>, last: int|
            {
                &&& #[trigger] sequence::route(tail, last, 6, next, to, error)
                &&& sequence::step(parser.1, after.1, tail[0], tail[1], 0, last, error)
                &&& sequence::step(parser.2, after.2, tail[1], tail[2], 1, last, error)
                &&& sequence::step(parser.3, after.3, tail[2], tail[3], 2, last, error)
                &&& sequence::step(parser.4, after.4, tail[3], tail[4], 3, last, error)
                &&& sequence::step(parser.5, after.5, tail[4], tail[5], 4, last, error)
                &&& sequence::step(parser.6, after.6, tail[5], tail[6], 5, last, error)
            };
        let at = seq![from] + tail;
        assert(sequence::route(at, last + 1, 7, from, to, error));
    }
}

/// A tuple of seven parsers gives the output of the first one and those of the tuple of the others,
/// which is applied while the output of the first one keeps what it holds. If one fails, what the
/// outputs hold is given back.
pub proof fn law_sequence_of_seven_gives_all<
    A: Parser,
    B: Parser<Input = A::Input>,
    C: Parser<Input = A::Input>,
    D: Parser<Input = A::Input>,
    E: Parser<Input = A::Input>,
    F: Parser<Input = A::Input>,
    G: Parser<Input = A::Input>,
>(
    parser: (A, B, C, D, E, F, G),
    after: (A, B, C, D, E, F, G),
    from: StreamState,
    to: StreamState,
    r: Result<(
        A::Output,
        B::Output,
        C::Output,
        D::Output,
        E::Output,
        F::Output,
        G::Output,
    ), ParserError>,
)
    ensures
        parser.gets(after, from, to, r) <==> {
            let rest = (parser.1, parser.2, parser.3, parser.4, parser.5, parser.6);
            let rest_after = (after.1, after.2, after.3, after.4, after.5, after.6);
            match r {
                Ok(output) => exists|at: StreamState|
                    {
                        &&& #[trigger] parser.0.gets(after.0, from, at, Ok(output.0))
                        &&& rest.gets(rest_after, at, to, Ok((
                            output.1,
                            output.2,
                            output.3,
                            output.4,
                            output.5,
                            output.6,
                        )))
                    },
                Err(error) => {
                    ||| rest_after == rest && exists|at: StreamState|
                        {
                            &&& #[trigger] parser.0.gets(after.0, from, at, Err(error))
                            &&& to == (StreamState { marks: from.marks, ..at })
                        }
                    ||| exists|at: StreamState, there: StreamState, output: A::Output|
                        {
                            &&& #[trigger] parser.0.gets(after.0, from, at, Ok(output))
                            &&& #[trigger] rest.gets(rest_after, at, there, Err(error))
                            &&& to == (StreamState { marks: from.marks, ..there })
                        }
                },
            }
        },
{
    let rest = (parser.1, parser.2, parser.3, parser.4, parser.5, parser.6);
    let rest_after = (after.1, after.2, after.3, after.4, after.5, after.6);
    match r {
        Ok(output) => {
            let others = (output.1, output.2, output.3, output.4, output.5, output.6);
            if parser.gets(after, from, to, r) {
                let at = choose|at: Seq<StreamState>|
                    {
                        &&& #[trigger] sequence::route(at, 6, 7, from, to, None)
                        &&& parser.0.gets(after.0, at[0], at[1], Ok(output.0))
                        &&& parser.1.gets(after.1, at[1], at[2], Ok(output.1))
                        &&& parser.2.gets(after.2, at[2], at[3], Ok(output.2))
                        &&& parser.3.gets(after.3, at[3], at[4], Ok(output.3))
                        &&& parser.4.gets(after.4, at[4], at[5], Ok(output.4))
                        &&& parser.5.gets(after.5, at[5], at[6], Ok(output.5))
                        &&& parser.6.gets(after.6, at[6], at[7], Ok(output.6))
                    };
                let tail = at.skip(1);
                assert(parser.0.gets(after.0, from, at[1], Ok(output.0)));
                assert(sequence::route(tail, 5, 6, at[1], to, None));
                assert(rest.gets(rest_after, at[1], to, Ok(others)));
            }
            assert forall|next: StreamState|
                {
                    &&& #[trigger] parser.0.gets(after.0, from, next, Ok(output.0))
                    &&& rest.gets(rest_after, next, to, Ok(others))
                } implies parser.gets(after, from, to, r) by {
                let tail = choose|tail: Seq<StreamState>|
                    {
                        &&& #[trigger] sequence::route(tail, 5, 6, next, to, None)
                        &&& parser.1.gets(after.1, tail[0], tail[1], Ok(output.1))
                        &&& parser.2.gets(after.2, tail[1], tail[2], Ok(output.2))
                        &&& parser.3.gets(after.3, tail[2], tail[3], Ok(output.3))
                        &&& parser.4.gets(after.4, tail[3], tail[4], Ok(output.4))
                        &&& parser.5.gets(after.5, tail[4], tail[5], Ok(output.5))
                        &&& parser.6.gets(after.6, tail[5], tail[6], Ok(output.6))
                    };
                let at = seq![from] + tail;
                assert(sequence::route(at, 6, 7, from, to, None));
            }
        },
        Err(error) => {
            if parser.gets(after, from, to, r) {
                let (at, last) = choose|at: Seq<StreamState>, last: int|
                    {
                        &&& #[trigger] sequence::undone(at, last, 7, from, to)
                        &&& sequence::tries(parser.0, after.0, at[0], at[1], 0, last, error)
                        &&& sequence::tries(parser.1, after.1, at[1], at[2], 1, last, error)
                        &&& sequence::tries(parser.2, after.2, at[2], at[3], 2, last, error)
                        &&& sequence::tries(parser.3, after.3, at[3], at[4], 3, last, error)
                        &&& sequence::tries(parser.4, after.4, at[4], at[5], 4, last, error)
                        &&& sequence::tries(parser.5, after.5, at[5], at[6], 5, last, error)
                        &&& sequence::tries(parser.6, after.6, at[6], at[7], 6, last, error)
                    };
                if last == 0 {
                    assert(parser.0.gets(after.0, from, at[1], Err(error)));
                    assert(rest_after == rest);
                } else {
                    let output = choose|output: A::Output| #[trigger]
                        parser.0.gets(after.0, at[0], at[1], Ok(output));
                    let tail = at.skip(1);
                    let there = tail[last].with_marks(at[1].marks);
                    assert(sequence::undone(tail, last - 1, 6, at[1], there));
                    assert(rest.gets(rest_after, at[1], there, Err(error)));
                    assert(parser.0.gets(after.0, from, at[1], Ok(output)));
                }
            }
            if rest_after == rest {
                assert forall|at: StreamState|
                    {
                        &&& #[trigger] parser.0.gets(after.0, from, at, Err(error))
                        &&& to == (StreamState { marks: from.marks, ..at })
                    } implies parser.gets(after, from, to, r) by {
                    assert(sequence::undone(seq![from, at], 0, 7, from, to));
                }
            }
            assert forall|next: StreamState, there: StreamState, output: A::Output|
                {
                    &&& #[trigger] parser.0.gets(after.0, from, next, Ok(output))
                    &&& #[trigger] rest.gets(rest_after, next, there, Err(error))
                    &&& to == (StreamState { marks: from.marks, ..there })
                } implies parser.gets(after, from, to, r) by {
                let (tail, last) = choose|tail: Seq<StreamState>, last: int|
                    {
                        &&& #[trigger] sequence::undone(tail, last, 6, next, there)
                        &&& sequence::tries(parser.1, after.1, tail[0], tail[1], 0, last, error)
                        &&& sequence::tries(parser.2, after.2, tail[1], tail[2], 1, last, error)
                        &&& sequence::tries(parser.3, after.3, tail[2], tail[3], 2, last, error)
                        &&& sequence::tries(parser.4, after.4, tail[3], tail[4], 3, last, error)
                        &&& sequence::tries(parser.5, after.5, tail[4], tail[5], 4, last, error)
                        &&& sequence::tries(parser.6, after.6, tail[5], tail[6], 5, last, error)
                    };
                let at = seq![from] + tail;
                assert(sequence::undone(at, last + 1, 7, from, to));
                assert(parser.0.gets(after.0, at[0], at[1], Ok(output)));
            }
        },
    }
}

/// A tuple of eight parsers does what the first one does if that one fails, and what the tuple of
/// the others does from where the first one succeeded otherwise. It can be applied where that can.
pub proof fn law_sequence_of_eight<
    A: Parser,
    B: Parser<Input = A::Input>,
    C: Parser<Input = A::Input>,
    D: Parser<Input = A::Input>,
    E: Parser<Input = A::Input>,
    F: Parser<Input = A::Input>,
    G: Parser<Input = A::Input>,
    H: Parser<Input = A::Input>,
>(
    parser: (A, B, C, D, E, F, G, H),
    after: (A, B, C, D, E, F, G, H),
    from: StreamState,
    to: StreamState,
    error: Option<ParserError>,
)
    ensures
        parser.ready(from) <==> {
            let rest = (parser.1, parser.2, parser.3, parser.4, parser.5, parser.6, parser.7);
            &&& parser.0.ready(from)
            &&& forall|next: A, at: StreamState| #[trigger]
                parser.0.parses(next, from, at, None) ==> rest.ready(at)
            &&& forall|next: A, at: StreamState, output: A::Output| #[trigger]
                parser.0.gets(next, from, at, Ok(output)) ==> rest.ready(at)
        },
        parser.parses(after, from, to, error) <==> {
            let rest = (parser.1, parser.2, parser.3, parser.4, parser.5, parser.6, parser.7);
            let rest_after = (after.1, after.2, after.3, after.4, after.5, after.6, after.7);
            ||| error is Some && parser.0.parses(after.0, from, to, error) && rest_after == rest
            ||| exists|at: StreamState|
                {
                    &&& #[trigger] parser.0.parses(after.0, from, at, None)
                    &&& rest.parses(rest_after, at, to, error)
                }
        },
{
    let rest = (parser.1, parser.2, parser.3, parser.4, parser.5, parser.6, parser.7);
    let rest_after = (after.1, after.2, after.3, after.4, after.5, after.6, after.7);
    if parser.parses(after, from, to, error) {
        let (at, last) = choose|at: Seq<StreamState>, last: int|
            {
                &&& #[trigger] sequence::route(at, last, 8, from, to, error)
                &&& sequence::step(parser.0, after.0, at[0], at[1], 0, last, error)
                &&& sequence::step(parser.1, after.1, at[1], at[2], 1, last, error)
                &&& sequence::step(parser.2, after.2, at[2], at[3], 2, last, error)
                &&& sequence::step(parser.3, after.3, at[3], at[4], 3, last, error)
                &&& sequence::step(parser.4, after.4, at[4], at[5], 4, last, error)
                &&& sequence::step(parser.5, after.5, at[5], at[6], 5, last, error)
                &&& sequence::step(parser.6, after.6, at[6], at[7], 6, last, error)
                &&& sequence::step(parser.7, after.7, at[7], at[8], 7, last, error)
            };
        if last > 0 {
            let tail = at.skip(1);
            assert(parser.0.parses(after.0, from, at[1], None));
            assert(sequence::route(tail, last - 1, 7, at[1], to, error));
            assert(rest.parses(rest_after, at[1], to, error));
        }
    }
    if error is Some && parser.0.parses(after.0, from, to, error) && rest_after == rest {
        assert(sequence::route(seq![from, to], 0, 8, from, to, error));
    }
    assert forall|next: StreamState|
        {
            &&& #[trigger] parser.0.parses(after.0, from, next, None)
            &&& rest.parses(rest_after, next, to, error)
        } implies parser.parses(after, from, to, error) by {
        let (tail, last) = choose|tail: Seq<StreamState>, last: int|
            {
                &&& #[trigger] sequence::route(tail, last, 7, next, to, error)
                &&& sequence::step(parser.1, after.1, tail[0], tail[1], 0, last, error)
                &&& sequence::step(parser.2, after.2, tail[1], tail[2], 1, last, error)
                &&& sequence::step(parser.3, after.3, tail[2], tail[3], 2, last, error)
                &&& sequence::step(parser.4, after.4, tail[3], tail[4], 3, last, error)
                &&& sequence::step(parser.5, after.5, tail[4], tail[5], 4, last, error)
                &&& sequence::step(parser.6, after.6, tail[5], tail[6], 5, last, error)
                &&& sequence::step(parser.7, after.7, tail[6], tail[7], 6, last, error)
            };
        let at = seq![from] + tail;
        assert(sequence::route(at, last + 1, 8, from, to, error));
    }
}

/// A tuple of eight parsers gives the output of the first one and those of the tuple of the others,
/// which is applied while the output of the first one keeps what it holds. If one fails, what the
/// outputs hold is given back.
pub proof fn law_sequence_of_eight_gives_all<
    A: Parser,
    B: Parser<Input = A::Input>,
    C: Parser<Input = A::Input>,
    D: Parser<Input = A::Input>,
    E: Parser<Input = A::Input>,
    F: Parser<Input = A::Input>,
    G: Parser<Input = A::Input>,
    H: Parser<Input = A::Input>,
>(
    parser: (A, B, C, D, E, F, G, H),
    after: (A, B, C, D, E, F, G, H),
    from: StreamState,
    to: StreamState,
    r: Result<(
        A::Output,
        B::Output,
        C::Output,
        D::Output,
        E::Output,
        F::Output,
        G::Output,
        H::Output,
    ), ParserError>,
)
    ensures
        parser.gets(after, from, to, r) <==> {
            let rest = (parser.1, parser.2, parser.3, parser.4, parser.5, parser.6, parser.7);
            let rest_after = (after.1, after.2, after.3, after.4, after.5, after.6, after.7);
            match r {
                Ok(output) => exists|at: StreamState|
                    {
                        &&& #[trigger] parser.0.gets(after.0, from, at, Ok(output.0))
                        &&& rest.gets(rest_after, at, to, Ok((
                            output.1,
                            output.2,
                            output.3,
                            output.4,
                            output.5,
                            output.6,
                            output.7,
                        )))
                    },
                Err(error) => {
                    ||| rest_after == rest && exists|at: StreamState|
                        {
                            &&& #[trigger] parser.0.gets(after.0, from, at, Err(error))
                            &&& to == (StreamState { marks: from.marks, ..at })
                        }
                    ||| exists|at: StreamState, there: StreamState, output: A::Output|
                        {
                            &&& #[trigger] parser.0.gets(after.0, from, at, Ok(output))
                            &&& #[trigger] rest.gets(rest_after, at, there, Err(error))
                            &&& to == (StreamState { marks: from.marks, ..there })
                        }
                },
            }
        },
{
    let rest = (parser.1, parser.2, parser.3, parser.4, parser.5, parser.6, parser.7);
    let rest_after = (after.1, after.2, after.3, after.4, after.5, after.6, after.7);
    match r {
        Ok(output) => {
            let others = (output.1, output.2, output.3, output.4, output.5, output.6, output.7);
            if parser.gets(after, from, to, r) {
                let at = choose|at: Seq<StreamState>|
                    {
                        &&& #[trigger] sequence::route(at, 7, 8, from, to, None)
                        &&& parser.0.gets(after.0, at[0], at[1], Ok(output.0))
                        &&& parser.1.gets(after.1, at[1], at[2], Ok(output.1))
                        &&& parser.2.gets(after.2, at[2], at[3], Ok(output.2))
                        &&& parser.3.gets(after.3, at[3], at[4], Ok(output.3))
                        &&& parser.4.gets(after.4, at[4], at[5], Ok(output.4))
                        &&& parser.5.gets(after.5, at[5], at[6], Ok(output.5))
                        &&& parser.6.gets(after.6, at[6], at[7], Ok(output.6))
                        &&& parser.7.gets(after.7, at[7], at[8], Ok(output.7))
                    };
                let tail = at.skip(1);
                assert(parser.0.gets(after.0, from, at[1], Ok(output.0)));
                assert(sequence::route(tail, 6, 7, at[1], to, None));
                assert(rest.gets(rest_after, at[1], to, Ok(others)));
            }
            assert forall|next: StreamState|
                {
                    &&& #[trigger] parser.0.gets(after.0, from, next, Ok(output.0))
                    &&& rest.gets(rest_after, next, to, Ok(others))
                } implies parser.gets(after, from, to, r) by {
                let tail = choose|tail: Seq<StreamState>|
                    {
                        &&& #[trigger] sequence::route(tail, 6, 7, next, to, None)
                        &&& parser.1.gets(after.1, tail[0], tail[1], Ok(output.1))
                        &&& parser.2.gets(after.2, tail[1], tail[2], Ok(output.2))
                        &&& parser.3.gets(after.3, tail[2], tail[3], Ok(output.3))
                        &&& parser.4.gets(after.4, tail[3], tail[4], Ok(output.4))
                        &&& parser.5.gets(after.5, tail[4], tail[5], Ok(output.5))
                        &&& parser.6.gets(after.6, tail[5], tail[6], Ok(output.6))
                        &&& parser.7.gets(after.7, tail[6], tail[7], Ok(output.7))
                    };
                let at = seq![from] + tail;
                assert(sequence::route(at, 7, 8, from, to, None));
            }
        },
        Err(error) => {
            if parser.gets(after, from, to, r) {
                let (at, last) = choose|at: Seq<StreamState>, last: int|
                    {
                        &&& #[trigger] sequence::undone(at, last, 8, from, to)
                        &&& sequence::tries(parser.0, after.0, at[0], at[1], 0, last, error)
                        &&& sequence::tries(parser.1, after.1, at[1], at[2], 1, last, error)
                        &&& sequence::tries(parser.2, after.2, at[2], at[3], 2, last, error)
                        &&& sequence::tries(parser.3, after.3, at[3], at[4], 3, last, error)
                        &&& sequence::tries(parser.4, after.4, at[4], at[5], 4, last, error)
                        &&& sequence::tries(parser.5, after.5, at[5], at[6], 5, last, error)
                        &&& sequence::tries(parser.6, after.6, at[6], at[7], 6, last, error)
                        &&& sequence::tries(parser.7, after.7, at[7], at[8], 7, last, error)
                    };
                if last == 0 {
                    assert(parser.0.gets(after.0, from, at[1], Err(error)));
                    assert(rest_after == rest);
                } else {
                    let output = choose|output: A::Output| #[trigger]
                        parser.0.gets(after.0, at[0], at[1], Ok(output));
                    let tail = at.skip(1);
                    let there = tail[last].with_marks(at[1].marks);
                    assert(sequence::undone(tail, last - 1, 7, at[1], there));
                    assert(rest.gets(rest_after, at[1], there, Err(error)));
                    assert(parser.0.gets(after.0, from, at[1], Ok(output)));
                }
            }
            if rest_after == rest {
                assert forall|at: StreamState|
                    {
                        &&& #[trigger] parser.0.gets(after.0, from, at, Err(error))
                        &&& to == (StreamState { marks: from.marks, ..at })
                    } implies parser.gets(after, from, to, r) by {
                    assert(sequence::undone(seq![from, at], 0, 8, from, to));
                }
            }
            assert forall|next: StreamState, there: StreamState, output: A::Output|
                {
                    &&& #[trigger] parser.0.gets(after.0, from, next, Ok(output))
                    &&& #[trigger] rest.gets(rest_after, next, there, Err(error))
                    &&& to == (StreamState { marks: from.marks, ..there })
                } implies parser.gets(after, from, to, r) by {
                let (tail, last) = choose|tail: Seq<StreamState>, last: int|
                    {
                        &&& #[trigger] sequence::undone(tail, last, 7, next, there)
                        &&& sequence::tries(parser.1, after.1, tail[0], tail[1], 0, last, error)
                        &&& sequence::tries(parser.2, after.2, tail[1], tail[2], 1, last, error)
                        &&& sequence::tries(parser.3, after.3, tail[2], tail[3], 2, last, error)
                        &&& sequence::tries(parser.4, after.4, tail[3], tail[4], 3, last, error)
                        &&& sequence::tries(parser.5, after.5, tail[4], tail[5], 4, last, error)
                        &&& sequence::tries(parser.6, after.6, tail[5], tail[6], 5, last, error)
                        &&& sequence::tries(parser.7, after.7, tail[6], tail[7], 6, last, error)
                    };
                let at = seq![from] + tail;
                assert(sequence::undone(at, last + 1, 8, from, to));
                assert(parser.0.gets(after.0, at[0], at[1], Ok(output)));
            }
        },
    }
}

/// A tuple of nine parsers does what the first one does if that one fails, and what the tuple of
/// the others does from where the first one succeeded otherwise. It can be applied where that can.
pub proof fn law_sequence_of_nine<
    A: Parser,
    B: Parser<Input = A::Input>,
    C: Parser<Input = A::Input>,
    D: Parser<Input = A::Input>,
    E: Parser<Input = A::Input>,
    F: Parser<Input = A::Input>,
    G: Parser<Input = A::Input>,
    H: Parser<Input = A::Input>,
    I: Parser<Input = A::Input>,
>(
    parser: (A, B, C, D, E, F, G, H, I),
    after: (A, B, C, D, E, F, G, H, I),
    from: StreamState,
    to: StreamState,
    error: Option<ParserError>,
)
    ensures
        parser.ready(from) <==> {
            let rest = (
                parser.1,
                parser.2,
                parser.3,
                parser.4,
                parser.5,
                parser.6,
                parser.7,
                parser.8,
            );
            &&& parser.0.ready(from)
            &&& forall|next: A, at: StreamState| #[trigger]
                parser.0.parses(next, from, at, None) ==> rest.ready(at)
            &&& forall|next: A, at: StreamState, output: A::Output| #[trigger]
                parser.0.gets(next, from, at, Ok(output)) ==> rest.ready(at)
        },
        parser.parses(after, from, to, error) <==> {
            let rest = (
                parser.1,
                parser.2,
                parser.3,
                parser.4,
                parser.5,
                parser.6,
                parser.7,
                parser.8,
            );
            let rest_after = (
                after.1,
                after.2,
                after.3,
                after.4,
                after.5,
                after.6,
                after.7,
                after.8,
            );
            ||| error is Some && parser.0.parses(after.0, from, to, error) && rest_after == rest
            ||| exists|at: StreamState|
                {
                    &&& #[trigger] parser.0.parses(after.0, from, at, None)
                    &&& rest.parses(rest_after, at, to, error)
                }
        },
{
    let rest = (parser.1, parser.2, parser.3, parser.4, parser.5, parser.6, parser.7, parser.8);
    let rest_after = (after.1, after.2, after.3, after.4, after.5, after.6, after.7, after.8);
    if parser.parses(after, from, to, error) {
        let (at, last) = choose|at: Seq<StreamState>, last: int|
            {
                &&& #[trigger] sequence::route(at, last, 9, from, to, error)
                &&& sequence::step(parser.0, after.0, at[0], at[1], 0, last, error)
                &&& sequence::step(parser.1, after.1, at[1], at[2], 1, last, error)
                &&& sequence::step(parser.2, after.2, at[2], at[3], 2, last, error)
                &&& sequence::step(parser.3, after.3, at[3], at[4], 3, last, error)
                &&& sequence::step(parser.4, after.4, at[4], at[5], 4, last, error)
                &&& sequence::step(parser.5, after.5, at[5], at[6], 5, last, error)
                &&& sequence::step(parser.6, after.6, at[6], at[7], 6, last, error)
                &&& sequence::step(parser.7, after.7, at[7], at[8], 7, last, error)
                &&& sequence::step(parser.8, after.8, at[8], at[9], 8, last, error)
            };
        if last > 0 {
            let tail = at.skip(1);
            assert(parser.0.parses(after.0, from, at[1], None));
            assert(sequence::route(tail, last - 1, 8, at[1], to, error));
            assert(rest.parses(rest_after, at[1], to, error));
        }
    }
    if error is Some && parser.0.parses(after.0, from, to, error) && rest_after == rest {
        assert(sequence::route(seq![from, to], 0, 9, from, to, error));
    }
    assert forall|next: StreamState|
        {
            &&& #[trigger] parser.0.parses(after.0, from, next, None)
            &&& rest.parses(rest_after, next, to, error)
        } implies parser.parses(after, from, to, error) by {
        let (tail, last) = choose|tail: Seq<StreamState>, last: int|
            {
                &&& #[trigger] sequence::route(tail, last, 8, next, to, error)
                &&& sequence::step(parser.1, after.1, tail[0], tail[1], 0, last, error)
                &&& sequence::step(parser.2, after.2, tail[1], tail[2], 1, last, error)
                &&& sequence::step(parser.3, after.3, tail[2], tail[3], 2, last, error)
                &&& sequence::step(parser.4, after.4, tail[3], tail[4], 3, last, error)
                &&& sequence::step(parser.5, after.5, tail[4], tail[5], 4, last, error)
                &&& sequence::step(parser.6, after.6, tail[5], tail[6], 5, last, error)
                &&& sequence::step(parser.7, after.7, tail[6], tail[7], 6, last, error)
                &&& sequence::step(parser.8, after.8, tail[7], tail[8], 7, last, error)
            };
        let at = seq![from] + tail;
        assert(sequence::route(at, last + 1, 9, from, to, error));
    }
}

/// A tuple of nine parsers gives the output of the first one and those of the tuple of the others,
/// which is applied while the output of the first one keeps what it holds. If one fails, what the
/// outputs hold is given back.
pub proof fn law_sequence_of_nine_gives_all<
    A: Parser,
    B: Parser<Input = A::Input>,
    C: Parser<Input = A::Input>,
    D: Parser<Input = A::Input>,
    E: Parser<Input = A::Input>,
    F: Parser<Input = A::Input>,
    G: Parser<Input = A::Input>,
    H: Parser<Input = A::Input>,
    I: Parser<Input = A::Input>,
>(
    parser: (A, B, C, D, E, F, G, H, I),
    after: (A, B, C, D, E, F, G, H, I),
    from: StreamState,
    to: StreamState,
    r: Result<(
        A::Output,
        B::Output,
        C::Output,
        D::Output,
        E::Output,
        F::Output,
        G::Output,
        H::Output,
        I::Output,
    ), ParserError>,
)
    ensures
        parser.gets(after, from, to, r) <==> {
            let rest = (
                parser.1,
                parser.2,
                parser.3,
                parser.4,
                parser.5,
                parser.6,
                parser.7,
                parser.8,
            );
            let rest_after = (
                after.1,
                after.2,
                after.3,
                after.4,
                after.5,
                after.6,
                after.7,
                after.8,
            );
            match r {
                Ok(output) => exists|at: StreamState|
                    {
                        &&& #[trigger] parser.0.gets(after.0, from, at, Ok(output.0))
                        &&& rest.gets(rest_after, at, to, Ok((
                            output.1,
                            output.2,
                            output.3,
                            output.4,
                            output.5,
                            output.6,
                            output.7,
                            output.8,
                        )))
                    },
                Err(error) => {
                    ||| rest_after == rest && exists|at: StreamState|
                        {
                            &&& #[trigger] parser.0.gets(after.0, from, at, Err(error))
                            &&& to == (StreamState { marks: from.marks, ..at })
                        }
                    ||| exists|at: StreamState, there: StreamState, output: A::Output|
                        {
                            &&& #[trigger] parser.0.gets(after.0, from, at, Ok(output))
                            &&& #[trigger] rest.gets(rest_after, at, there, Err(error))
                            &&& to == (StreamState { marks: from.marks, ..there })
                        }
                },
            }
        },
{
    let rest = (parser.1, parser.2, parser.3, parser.4, parser.5, parser.6, parser.7, parser.8);
    let rest_after = (after.1, after.2, after.3, after.4, after.5, after.6, after.7, after.8);
    match r {
        Ok(output) => {
            let others = (
                output.1,
                output.2,
                output.3,
                output.4,
                output.5,
                output.6,
                output.7,
                output.8,
            );
            if parser.gets(after, from, to, r) {
                let at = choose|at: Seq<StreamState>|
                    {
                        &&& #[trigger] sequence::route(at, 8, 9, from, to, None)
                        &&& parser.0.gets(after.0, at[0], at[1], Ok(output.0))
                        &&& parser.1.gets(after.1, at[1], at[2], Ok(output.1))
                        &&& parser.2.gets(after.2, at[2], at[3], Ok(output.2))
                        &&& parser.3.gets(after.3, at[3], at[4], Ok(output.3))
                        &&& parser.4.gets(after.4, at[4], at[5], Ok(output.4))
                        &&& parser.5.gets(after.5, at[5], at[6], Ok(output.5))
                        &&& parser.6.gets(after.6, at[6], at[7], Ok(output.6))
                        &&& parser.7.gets(after.7, at[7], at[8], Ok(output.7))
                        &&& parser.8.gets(after.8, at[8], at[9], Ok(output.8))
                    };
                let tail = at.skip(1);
                assert(parser.0.gets(after.0, from, at[1], Ok(output.0)));
                assert(sequence::route(tail, 7, 8, at[1], to, None));
                assert(rest.gets(rest_after, at[1], to, Ok(others)));
            }
            assert forall|next: StreamState|
                {
                    &&& #[trigger] parser.0.gets(after.0, from, next, Ok(output.0))
                    &&& rest.gets(rest_after, next, to, Ok(others))
                } implies parser.gets(after, from, to, r) by {
                let tail = choose|tail: Seq<StreamState>|
                    {
                        &&& #[trigger] sequence::route(tail, 7, 8, next, to, None)
                        &&& parser.1.gets(after.1, tail[0], tail[1], Ok(output.1))
                        &&& parser.2.gets(after.2, tail[1], tail[2], Ok(output.2))
                        &&& parser.3.gets(after.3, tail[2], tail[3], Ok(output.3))
                        &&& parser.4.gets(after.4, tail[3], tail[4], Ok(output.4))
                        &&& parser.5.gets(after.5, tail[4], tail[5], Ok(output.5))
                        &&& parser.6.gets(after.6, tail[5], tail[6], Ok(output.6))
                        &&& parser.7.gets(after.7, tail[6], tail[7], Ok(output.7))
                        &&& parser.8.gets(after.8, tail[7], tail[8], Ok(output.8))
                    };
                let at = seq![from] + tail;
                assert(sequence::route(at, 8, 9, from, to, None));
            }
        },
        Err(error) => {
            if parser.gets(after, from, to, r) {
                let (at, last) = choose|at: Seq<StreamState>, last: int|
                    {
                        &&& #[trigger] sequence::undone(at, last, 9, from, to)
                        &&& sequence::tries(parser.0, after.0, at[0], at[1], 0, last, error)
                        &&& sequence::tries(parser.1, after.1, at[1], at[2], 1, last, error)
                        &&& sequence::tries(parser.2, after.2, at[2], at[3], 2, last, error)
                        &&& sequence::tries(parser.3, after.3, at[3], at[4], 3, last, error)
                        &&& sequence::tries(parser.4, after.4, at[4], at[5], 4, last, error)
                        &&& sequence::tries(parser.5, after.5, at[5], at[6], 5, last, error)
                        &&& sequence::tries(parser.6, after.6, at[6], at[7], 6, last, error)
                        &&& sequence::tries(parser.7, after.7, at[7], at[8], 7, last, error)
                        &&& sequence::tries(parser.8, after.8, at[8], at[9], 8, last, error)
                    };
                if last == 0 {
                    assert(parser.0.gets(after.0, from, at[1], Err(error)));
                    assert(rest_after == rest);
                } else {
                    let output = choose|output: A::Output| #[trigger]
                        parser.0.gets(after.0, at[0], at[1], Ok(output));
                    let tail = at.skip(1);
                    let there = tail[last].with_marks(at[1].marks);
                    assert(sequence::undone(tail, last - 1, 8, at[1], there));
                    assert(rest.gets(rest_after, at[1], there, Err(error)));
                    assert(parser.0.gets(after.0, from, at[1], Ok(output)));
                }
            }
            if rest_after == rest {
                assert forall|at: StreamState|
                    {
                        &&& #[trigger] parser.0.gets(after.0, from, at, Err(error))
                        &&& to == (StreamState { marks: from.marks, ..at })
                    } implies parser.gets(after, from, to, r) by {
                    assert(sequence::undone(seq![from, at], 0, 9, from, to));
                }
            }
            assert forall|next: StreamState, there: StreamState, output: A::Output|
                {
                    &&& #[trigger] parser.0.gets(after.0, from, next, Ok(output))
                    &&& #[trigger] rest.gets(rest_after, next, there, Err(error))
                    &&& to == (StreamState { marks: from.marks, ..there })
                } implies parser.gets(after, from, to, r) by {
                let (tail, last) = choose|tail: Seq<StreamState>, last: int|
                    {
                        &&& #[trigger] sequence::undone(tail, last, 8, next, there)
                        &&& sequence::tries(parser.1, after.1, tail[0], tail[1], 0, last, error)
                        &&& sequence::tries(parser.2, after.2, tail[1], tail[2], 1, last, error)
                        &&& sequence::tries(parser.3, after.3, tail[2], tail[3], 2, last, error)
                        &&& sequence::tries(parser.4, after.4, tail[3], tail[4], 3, last, error)
                        &&& sequence::tries(parser.5, after.5, tail[4], tail[5], 4, last, error)
                        &&& sequence::tries(parser.6, after.6, tail[5], tail[6], 5, last, error)
                        &&& sequence::tries(parser.7, after.7, tail[6], tail[7], 6, last, error)
                        &&& sequence::tries(parser.8, after.8, tail[7], tail[8], 7, last, error)
                    };
                let at = seq![from] + tail;
                assert(sequence::undone(at, last + 1, 9, from, to));
                assert(parser.0.gets(after.0, at[0], at[1], Ok(output)));
            }
        },
    }
}

/// A tuple of ten parsers does what the first one does if that one fails, and what the tuple of the
/// others does from where the first one succeeded otherwise. It can be applied where that can.
pub proof fn law_sequence_of_ten<
    A: Parser,
    B: Parser<Input = A::Input>,
    C: Parser<Input = A::Input>,
    D: Parser<Input = A::Input>,
    E: Parser<Input = A::Input>,
    F: Parser<Input = A::Input>,
    G: Parser<Input = A::Input>,
    H: Parser<Input = A::Input>,
    I: Parser<Input = A::Input>,
    J: Parser<Input = A::Input>,
>(
    parser: (A, B, C, D, E, F, G, H, I, J),
    after: (A, B, C, D, E, F, G, H, I, J),
    from: StreamState,
    to: StreamState,
    error: Option<ParserError>,
)
    ensures
        parser.ready(from) <==> {
            let rest = (
                parser.1,
                parser.2,
                parser.3,
                parser.4,
                parser.5,
                parser.6,
                parser.7,
                parser.8,
                parser.9,
            );
            &&& parser.0.ready(from)
            &&& forall|next: A, at: StreamState| #[trigger]
                parser.0.parses(next, from, at, None) ==> rest.ready(at)
            &&& forall|next: A, at: StreamState, output: A::Output| #[trigger]
                parser.0.gets(next, from, at, Ok(output)) ==> rest.ready(at)
        },
        parser.parses(after, from, to, error) <==> {
            let rest = (
                parser.1,
                parser.2,
                parser.3,
                parser.4,
                parser.5,
                parser.6,
                parser.7,
                parser.8,
                parser.9,
            );
            let rest_after = (
                after.1,
                after.2,
                after.3,
                after.4,
                after.5,
                after.6,
                after.7,
                after.8,
                after.9,
            );
            ||| error is Some && parser.0.parses(after.0, from, to, error) && rest_after == rest
            ||| exists|at: StreamState|
                {
                    &&& #[trigger] parser.0.parses(after.0, from, at, None)
                    &&& rest.parses(rest_after, at, to, error)
                }
        },
{
    let rest = (
        parser.1,
        parser.2,
        parser.3,
        parser.4,
        parser.5,
        parser.6,
        parser.7,
        parser.8,
        parser.9,
    );
    let rest_after = (
        after.1,
        after.2,
        after.3,
        after.4,
        after.5,
        after.6,
        after.7,
        after.8,
        after.9,
    );
    if parser.parses(after, from, to, error) {
        let (at, last) = choose|at: Seq<StreamState>, last: int|
            {
                &&& #[trigger] sequence::route(at, last, 10, from, to, error)
                &&& sequence::step(parser.0, after.0, at[0], at[1], 0, last, error)
                &&& sequence::step(parser.1, after.1, at[1], at[2], 1, last, error)
                &&& sequence::step(parser.2, after.2, at[2], at[3], 2, last, error)
                &&& sequence::step(parser.3, after.3, at[3], at[4], 3, last, error)
                &&& sequence::step(parser.4, after.4, at[4], at[5], 4, last, error)
                &&& sequence::step(parser.5, after.5, at[5], at[6], 5, last, error)
                &&& sequence::step(parser.6, after.6, at[6], at[7], 6, last, error)
                &&& sequence::step(parser.7, after.7, at[7], at[8], 7, last, error)
                &&& sequence::step(parser.8, after.8, at[8], at[9], 8, last, error)
                &&& sequence::step(parser.9, after.9, at[9], at[10], 9, last, error)
            };
        if last > 0 {
            let tail = at.skip(1);
            assert(parser.0.parses(after.0, from, at[1], None));
            assert(sequence::route(tail, last - 1, 9, at[1], to, error));
            assert(rest.parses(rest_after, at[1], to, error));
        }
    }
    if error is Some && parser.0.parses(after.0, from, to, error) && rest_after == rest {
        assert(sequence::route(seq![from, to], 0, 10, from, to, error));
    }
    assert forall|next: StreamState|
        {
            &&& #[trigger] parser.0.parses(after.0, from, next, None)
            &&& rest.parses(rest_after, next, to, error)
        } implies parser.parses(after, from, to, error) by {
        let (tail, last) = choose|tail: Seq<StreamState>, last: int|
            {
                &&& #[trigger] sequence::route(tail, last, 9, next, to, error)
                &&& sequence::step(parser.1, after.1, tail[0], tail[1], 0, last, error)
                &&& sequence::step(parser.2, after.2, tail[1], tail[2], 1, last, error)
                &&& sequence::step(parser.3, after.3, tail[2], tail[3], 2, last, error)
                &&& sequence::step(parser.4, after.4, tail[3], tail[4], 3, last, error)
                &&& sequence::step(parser.5, after.5, tail[4], tail[5], 4, last, error)
                &&& sequence::step(parser.6, after.6, tail[5], tail[6], 5, last, error)
                &&& sequence::step(parser.7, after.7, tail[6], tail[7], 6, last, error)
                &&& sequence::step(parser.8, after.8, tail[7], tail[8], 7, last, error)
                &&& sequence::step(parser.9, after.9, tail[8], tail[9], 8, last, error)
            };
        let at = seq![from] + tail;
        assert(sequence::route(at, last + 1, 10, from, to, error));
    }
}

/// A tuple of ten parsers gives the output of the first one and those of the tuple of the others,
/// which is applied while the output of the first one keeps what it holds. If one fails, what the
/// outputs hold is given back.
pub proof fn law_sequence_of_ten_gives_all<
    A: Parser,
    B: Parser<Input = A::Input>,
    C: Parser<Input = A::Input>,
    D: Parser<Input = A::Input>,
    E: Parser<Input = A::Input>,
    F: Parser<Input = A::Input>,
    G: Parser<Input = A::Input>,
    H: Parser<Input = A::Input>,
    I: Parser<Input = A::Input>,
    J: Parser<Input = A::Input>,
>(
    parser: (A, B, C, D, E, F, G, H, I, J),
    after: (A, B, C, D, E, F, G, H, I, J),
    from: StreamState,
    to: StreamState,
    r: Result<(
        A::Output,
        B::Output,
        C::Output,
        D::Output,
        E::Output,
        F::Output,
        G::Output,
        H::Output,
        I::Output,
        J::Output,
    ), ParserError>,
)
    ensures
        parser.gets(after, from, to, r) <==> {
            let rest = (
                parser.1,
                parser.2,
                parser.3,
                parser.4,
                parser.5,
                parser.6,
                parser.7,
                parser.8,
                parser.9,
            );
            let rest_after = (
                after.1,
                after.2,
                after.3,
                after.4,
                after.5,
                after.6,
                after.7,
                after.8,
                after.9,
            );
            match r {
                Ok(output) => exists|at: StreamState|
                    {
                        &&& #[trigger] parser.0.gets(after.0, from, at, Ok(output.0))
                        &&& rest.gets(rest_after, at, to, Ok((
                            output.1,
                            output.2,
                            output.3,
                            output.4,
                            output.5,
                            output.6,
                            output.7,
                            output.8,
                            output.9,
                        )))
                    },
                Err(error) => {
                    ||| rest_after == rest && exists|at: StreamState|
                        {
                            &&& #[trigger] parser.0.gets(after.0, from, at, Err(error))
                            &&& to == (StreamState { marks: from.marks, ..at })
                        }
                    ||| exists|at: StreamState, there: StreamState, output: A::Output|
                        {
                            &&& #[trigger] parser.0.gets(after.0, from, at, Ok(output))
                            &&& #[trigger] rest.gets(rest_after, at, there, Err(error))
                            &&& to == (StreamState { marks: from.marks, ..there })
                        }
                },
            }
        },
{
    let rest = (
        parser.1,
        parser.2,
        parser.3,
        parser.4,
        parser.5,
        parser.6,
        parser.7,
        parser.8,
        parser.9,
    );
    let rest_after = (
        after.1,
        after.2,
        after.3,
        after.4,
        after.5,
        after.6,
        after.7,
        after.8,
        after.9,
    );
    match r {
        Ok(output) => {
            let others = (
                output.1,
                output.2,
                output.3,
                output.4,
                output.5,
                output.6,
                output.7,
                output.8,
                output.9,
            );
            if parser.gets(after, from, to, r) {
                let at = choose|at: Seq<StreamState>|
                    {
                        &&& #[trigger] sequence::route(at, 9, 10, from, to, None)
                        &&& parser.0.gets(after.0, at[0], at[1], Ok(output.0))
                        &&& parser.1.gets(after.1, at[1], at[2], Ok(output.1))
                        &&& parser.2.gets(after.2, at[2], at[3], Ok(output.2))
                        &&& parser.3.gets(after.3, at[3], at[4], Ok(output.3))
                        &&& parser.4.gets(after.4, at[4], at[5], Ok(output.4))
                        &&& parser.5.gets(after.5, at[5], at[6], Ok(output.5))
                        &&& parser.6.gets(after.6, at[6], at[7], Ok(output.6))
                        &&& parser.7.gets(after.7, at[7], at[8], Ok(output.7))
                        &&& parser.8.gets(after.8, at[8], at[9], Ok(output.8))
                        &&& parser.9.gets(after.9, at[9], at[10], Ok(output.9))
                    };
                let tail = at.skip(1);
                assert(parser.0.gets(after.0, from, at[1], Ok(output.0)));
                assert(sequence::route(tail, 8, 9, at[1], to, None));
                assert(rest.gets(rest_after, at[1], to, Ok(others)));
            }
            assert forall|next: StreamState|
                {
                    &&& #[trigger] parser.0.gets(after.0, from, next, Ok(output.0))
                    &&& rest.gets(rest_after, next, to, Ok(others))
                } implies parser.gets(after, from, to, r) by {
                let tail = choose|tail: Seq<StreamState>|
                    {
                        &&& #[trigger] sequence::route(tail, 8, 9, next, to, None)
                        &&& parser.1.gets(after.1, tail[0], tail[1], Ok(output.1))
                        &&& parser.2.gets(after.2, tail[1], tail[2], Ok(output.2))
                        &&& parser.3.gets(after.3, tail[2], tail[3], Ok(output.3))
                        &&& parser.4.gets(after.4, tail[3], tail[4], Ok(output.4))
                        &&& parser.5.gets(after.5, tail[4], tail[5], Ok(output.5))
                        &&& parser.6.gets(after.6, tail[5], tail[6], Ok(output.6))
                        &&& parser.7.gets(after.7, tail[6], tail[7], Ok(output.7))
                        &&& parser.8.gets(after.8, tail[7], tail[8], Ok(output.8))
                        &&& parser.9.gets(after.9, tail[8], tail[9], Ok(output.9))
                    };
                let at = seq![from] + tail;
                assert(sequence::route(at, 9, 10, from, to, None));
            }
        },
        Err(error) => {
            if parser.gets(after, from, to, r) {
                let (at, last) = choose|at: Seq<StreamState>, last: int|
                    {
                        &&& #[trigger] sequence::undone(at, last, 10, from, to)
                        &&& sequence::tries(parser.0, after.0, at[0], at[1], 0, last, error)
                        &&& sequence::tries(parser.1, after.1, at[1], at[2], 1, last, error)
                        &&& sequence::tries(parser.2, after.2, at[2], at[3], 2, last, error)
                        &&& sequence::tries(parser.3, after.3, at[3], at[4], 3, last, error)
                        &&& sequence::tries(parser.4, after.4, at[4], at[5], 4, last, error)
                        &&& sequence::tries(parser.5, after.5, at[5], at[6], 5, last, error)
                        &&& sequence::tries(parser.6, after.6, at[6], at[7], 6, last, error)
                        &&& sequence::tries(parser.7, after.7, at[7], at[8], 7, last, error)
                        &&& sequence::tries(parser.8, after.8, at[8], at[9], 8, last, error)
                        &&& sequence::tries(parser.9, after.9, at[9], at[10], 9, last, error)
                    };
                if last == 0 {
                    assert(parser.0.gets(after.0, from, at[1], Err(error)));
                    assert(rest_after == rest);
                } else {
                    let output = choose|output: A::Output| #[trigger]
                        parser.0.gets(after.0, at[0], at[1], Ok(output));
                    let tail = at.skip(1);
                    let there = tail[last].with_marks(at[1].marks);
                    assert(sequence::undone(tail, last - 1, 9, at[1], there));
                    assert(rest.gets(rest_after, at[1], there, Err(error)));
                    assert(parser.0.gets(after.0, from, at[1], Ok(output)));
                }
            }
            if rest_after == rest {
                assert forall|at: StreamState|
                    {
                        &&& #[trigger] parser.0.gets(after.0, from, at, Err(error))
                        &&& to == (StreamState { marks: from.marks, ..at })
                    } implies parser.gets(after, from, to, r) by {
                    assert(sequence::undone(seq![from, at], 0, 10, from, to));
                }
            }
            assert forall|next: StreamState, there: StreamState, output: A::Output|
                {
                    &&& #[trigger] parser.0.gets(after.0, from, next, Ok(output))
                    &&& #[trigger] rest.gets(rest_after, next, there, Err(error))
                    &&& to == (StreamState { marks: from.marks, ..there })
                } implies parser.gets(after, from, to, r) by {
                let (tail, last) = choose|tail: Seq<StreamState>, last: int|
                    {
                        &&& #[trigger] sequence::undone(tail, last, 9, next, there)
                        &&& sequence::tries(parser.1, after.1, tail[0], tail[1], 0, last, error)
                        &&& sequence::tries(parser.2, after.2, tail[1], tail[2], 1, last, error)
                        &&& sequence::tries(parser.3, after.3, tail[2], tail[3], 2, last, error)
                        &&& sequence::tries(parser.4, after.4, tail[3], tail[4], 3, last, error)
                        &&& sequence::tries(parser.5, after.5, tail[4], tail[5], 4, last, error)
                        &&& sequence::tries(parser.6, after.6, tail[5], tail[6], 5, last, error)
                        &&& sequence::tries(parser.7, after.7, tail[6], tail[7], 6, last, error)
                        &&& sequence::tries(parser.8, after.8, tail[7], tail[8], 7, last, error)
                        &&& sequence::tries(parser.9, after.9, tail[8], tail[9], 8, last, error)
                    };
                let at = seq![from] + tail;
                assert(sequence::undone(at, last + 1, 10, from, to));
                assert(parser.0.gets(after.0, at[0], at[1], Ok(output)));
            }
        },
    }
}

/// A tuple of eleven parsers does what the first one does if that one fails, and what the tuple of
/// the others does from where the first one succeeded otherwise. It can be applied where that can.
pub proof fn law_sequence_of_eleven<
    A: Parser,
    B: Parser<Input = A::Input>,
    C: Parser<Input = A::Input>,
    D: Parser<Input = A::Input>,
    E: Parser<Input = A::Input>,
    F: Parser<Input = A::Input>,
    G: Parser<Input = A::Input>,
    H: Parser<Input = A::Input>,
    I: Parser<Input = A::Input>,
    J: Parser<Input = A::Input>,
    K: Parser<Input = A::Input>,
>(
    parser: (A, B, C, D, E, F, G, H, I, J, K),
    after: (A, B, C, D, E, F, G, H, I, J, K),
    from: StreamState,
    to: StreamState,
    error: Option<ParserError>,
)
    ensures
        parser.ready(from) <==> {
            let rest = (
                parser.1,
                parser.2,
                parser.3,
                parser.4,
                parser.5,
                parser.6,
                parser.7,
                parser.8,
                parser.9,
                parser.10,
            );
            &&& parser.0.ready(from)
            &&& forall|next: A, at: StreamState| #[trigger]
                parser.0.parses(next, from, at, None) ==> rest.ready(at)
            &&& forall|next: A, at: StreamState, output: A::Output| #[trigger]
                parser.0.gets(next, from, at, Ok(output)) ==> rest.ready(at)
        },
        parser.parses(after, from, to, error) <==> {
            let rest = (
                parser.1,
                parser.2,
                parser.3,
                parser.4,
                parser.5,
                parser.6,
                parser.7,
                parser.8,
                parser.9,
                parser.10,
            );
            let rest_after = (
                after.1,
                after.2,
                after.3,
                after.4,
                after.5,
                after.6,
                after.7,
                after.8,
                after.9,
                after.10,
            );
            ||| error is Some && parser.0.parses(after.0, from, to, error) && rest_after == rest
            ||| exists|at: StreamState|
                {
                    &&& #[trigger] parser.0.parses(after.0, from, at, None)
                    &&& rest.parses(rest_after, at, to, error)
                }
        },
{
    let rest = (
        parser.1,
        parser.2,
        parser.3,
        parser.4,
        parser.5,
        parser.6,
        parser.7,
        parser.8,
        parser.9,
        parser.10,
    );
    let rest_after = (
        after.1,
        after.2,
        after.3,
        after.4,
        after.5,
        after.6,
        after.7,
        after.8,
        after.9,
        after.10,
    );
    if parser.parses(after, from, to, error) {
        let (at, last) = choose|at: Seq<StreamState>, last: int|
            {
                &&& #[trigger] sequence::route(at, last, 11, from, to, error)
                &&& sequence::step(parser.0, after.0, at[0], at[1], 0, last, error)
                &&& sequence::step(parser.1, after.1, at[1], at[2], 1, last, error)
                &&& sequence::step(parser.2, after.2, at[2], at[3], 2, last, error)
                &&& sequence::step(parser.3, after.3, at[3], at[4], 3, last, error)
                &&& sequence::step(parser.4, after.4, at[4], at[5], 4, last, error)
                &&& sequence::step(parser.5, after.5, at[5], at[6], 5, last, error)
                &&& sequence::step(parser.6, after.6, at[6], at[7], 6, last, error)
                &&& sequence::step(parser.7, after.7, at[7], at[8], 7, last, error)
                &&& sequence::step(parser.8, after.8, at[8], at[9], 8, last, error)
                &&& sequence::step(parser.9, after.9, at[9], at[10], 9, last, error)
                &&& sequence::step(parser.10, after.10, at[10], at[11], 10, last, error)
            };
        if last > 0 {
            let tail = at.skip(1);
            assert(parser.0.parses(after.0, from, at[1], None));
            assert(sequence::route(tail, last - 1, 10, at[1], to, error));
            assert(rest.parses(rest_after, at[1], to, error));
        }
    }
    if error is Some && parser.0.parses(after.0, from, to, error) && rest_after == rest {
        assert(sequence::route(seq![from, to], 0, 11, from, to, error));
    }
    assert forall|next: StreamState|
        {
            &&& #[trigger] parser.0.parses(after.0, from, next, None)
            &&& rest.parses(rest_after, next, to, error)
        } implies parser.parses(after, from, to, error) by {
        let (tail, last) = choose|tail: Seq<StreamState>, last: int|
            {
                &&& #[trigger] sequence::route(tail, last, 10, next, to, error)
                &&& sequence::step(parser.1, after.1, tail[0], tail[1], 0, last, error)
                &&& sequence::step(parser.2, after.2, tail[1], tail[2], 1, last, error)
                &&& sequence::step(parser.3, after.3, tail[2], tail[3], 2, last, error)
                &&& sequence::step(parser.4, after.4, tail[3], tail[4], 3, last, error)
                &&& sequence::step(parser.5, after.5, tail[4], tail[5], 4, last, error)
                &&& sequence::step(parser.6, after.6, tail[5], tail[6], 5, last, error)
                &&& sequence::step(parser.7, after.7, tail[6], tail[7], 6, last, error)
                &&& sequence::step(parser.8, after.8, tail[7], tail[8], 7, last, error)
                &&& sequence::step(parser.9, after.9, tail[8], tail[9], 8, last, error)
                &&& sequence::step(parser.10, after.10, tail[9], tail[10], 9, last, error)
            };
        let at = seq![from] + tail;
        assert(sequence::route(at, last + 1, 11, from, to, error));
    }
}

/// A tuple of eleven parsers gives the output of the first one and those of the tuple of the
/// others, which is applied while the output of the first one keeps what it holds. If one fails,
/// what the outputs hold is given back.
pub proof fn law_sequence_of_eleven_gives_all<
    A: Parser,
    B: Parser<Input = A::Input>,
    C: Parser<Input = A::Input>,
    D: Parser<Input = A::Input>,
    E: Parser<Input = A::Input>,
    F: Parser<Input = A::Input>,
    G: Parser<Input = A::Input>,
    H: Parser<Input = A::Input>,
    I: Parser<Input = A::Input>,
    J: Parser<Input = A::Input>,
    K: Parser<Input = A::Input>,
>(
    parser: (A, B, C, D, E, F, G, H, I, J, K),
    after: (A, B, C, D, E, F, G, H, I, J, K),
    from: StreamState,
    to: StreamState,
    r: Result<(
        A::Output,
        B::Output,
        C::Output,
        D::Output,
        E::Output,
        F::Output,
        G::Output,
        H::Output,
        I::Output,
        J::Output,
        K::Output,
    ), ParserError>,
)
    ensures
        parser.gets(after, from, to, r) <==> {
            let rest = (
                parser.1,
                parser.2,
                parser.3,
                parser.4,
                parser.5,
                parser.6,
                parser.7,
                parser.8,
                parser.9,
                parser.10,
            );
            let rest_after = (
                after.1,
                after.2,
                after.3,
                after.4,
                after.5,
                after.6,
                after.7,
                after.8,
                after.9,
                after.10,
            );
            match r {
                Ok(output) => exists|at: StreamState|
                    {
                        &&& #[trigger] parser.0.gets(after.0, from, at, Ok(output.0))
                        &&& rest.gets(rest_after, at, to, Ok((
                            output.1,
                            output.2,
                            output.3,
                            output.4,
                            output.5,
                            output.6,
                            output.7,
                            output.8,
                            output.9,
                            output.10,
                        )))
                    },
                Err(error) => {
                    ||| rest_after == rest && exists|at: StreamState|
                        {
                            &&& #[trigger] parser.0.gets(after.0, from, at, Err(error))
                            &&& to == (StreamState { marks: from.marks, ..at })
                        }
                    ||| exists|at: StreamState, there: StreamState, output: A::Output|
                        {
                            &&& #[trigger] parser.0.gets(after.0, from, at, Ok(output))
                            &&& #[trigger] rest.gets(rest_after, at, there, Err(error))
                            &&& to == (StreamState { marks: from.marks, ..there })
                        }
                },
            }
        },
{
    let rest = (
        parser.1,
        parser.2,
        parser.3,
        parser.4,
        parser.5,
        parser.6,
        parser.7,
        parser.8,
        parser.9,
        parser.10,
    );
    let rest_after = (
        after.1,
        after.2,
        after.3,
        after.4,
        after.5,
        after.6,
        after.7,
        after.8,
        after.9,
        after.10,
    );
    match r {
        Ok(output) => {
            let others = (
                output.1,
                output.2,
                output.3,
                output.4,
                output.5,
                output.6,
                output.7,
                output.8,
                output.9,
                output.10,
            );
            if parser.gets(after, from, to, r) {
                let at = choose|at: Seq<StreamState>|
                    {
                        &&& #[trigger] sequence::route(at, 10, 11, from, to, None)
                        &&& parser.0.gets(after.0, at[0], at[1], Ok(output.0))
                        &&& parser.1.gets(after.1, at[1], at[2], Ok(output.1))
                        &&& parser.2.gets(after.2, at[2], at[3], Ok(output.2))
                        &&& parser.3.gets(after.3, at[3], at[4], Ok(output.3))
                        &&& parser.4.gets(after.4, at[4], at[5], Ok(output.4))
                        &&& parser.5.gets(after.5, at[5], at[6], Ok(output.5))
                        &&& parser.6.gets(after.6, at[6], at[7], Ok(output.6))
                        &&& parser.7.gets(after.7, at[7], at[8], Ok(output.7))
                        &&& parser.8.gets(after.8, at[8], at[9], Ok(output.8))
                        &&& parser.9.gets(after.9, at[9], at[10], Ok(output.9))
                        &&& parser.10.gets(after.10, at[10], at[11], Ok(output.10))
                    };
                let tail = at.skip(1);
                assert(parser.0.gets(after.0, from, at[1], Ok(output.0)));
                assert(sequence::route(tail, 9, 10, at[1], to, None));
                assert(rest.gets(rest_after, at[1], to, Ok(others)));
            }
            assert forall|next: StreamState|
                {
                    &&& #[trigger] parser.0.gets(after.0, from, next, Ok(output.0))
                    &&& rest.gets(rest_after, next, to, Ok(others))
                } implies parser.gets(after, from, to, r) by {
                let tail = choose|tail: Seq<StreamState>|
                    {
                        &&& #[trigger] sequence::route(tail, 9, 10, next, to, None)
                        &&& parser.1.gets(after.1, tail[0], tail[1], Ok(output.1))
                        &&& parser.2.gets(after.2, tail[1], tail[2], Ok(output.2))
                        &&& parser.3.gets(after.3, tail[2], tail[3], Ok(output.3))
                        &&& parser.4.gets(after.4, tail[3], tail[4], Ok(output.4))
                        &&& parser.5.gets(after.5, tail[4], tail[5], Ok(output.5))
                        &&& parser.6.gets(after.6, tail[5], tail[6], Ok(output.6))
                        &&& parser.7.gets(after.7, tail[6], tail[7], Ok(output.7))
                        &&& parser.8.gets(after.8, tail[7], tail[8], Ok(output.8))
                        &&& parser.9.gets(after.9, tail[8], tail[9], Ok(output.9))
                        &&& parser.10.gets(after.10, tail[9], tail[10], Ok(output.10))
                    };
                let at = seq![from] + tail;
                assert(sequence::route(at, 10, 11, from, to, None));
            }
        },
        Err(error) => {
            if parser.gets(after, from, to, r) {
                let (at, last) = choose|at: Seq<StreamState>, last: int|
                    {
                        &&& #[trigger] sequence::undone(at, last, 11, from, to)
                        &&& sequence::tries(parser.0, after.0, at[0], at[1], 0, last, error)
                        &&& sequence::tries(parser.1, after.1, at[1], at[2], 1, last, error)
                        &&& sequence::tries(parser.2, after.2, at[2], at[3], 2, last, error)
                        &&& sequence::tries(parser.3, after.3, at[3], at[4], 3, last, error)
                        &&& sequence::tries(parser.4, after.4, at[4], at[5], 4, last, error)
                        &&& sequence::tries(parser.5, after.5, at[5], at[6], 5, last, error)
                        &&& sequence::tries(parser.6, after.6, at[6], at[7], 6, last, error)
                        &&& sequence::tries(parser.7, after.7, at[7], at[8], 7, last, error)
                        &&& sequence::tries(parser.8, after.8, at[8], at[9], 8, last, error)
                        &&& sequence::tries(parser.9, after.9, at[9], at[10], 9, last, error)
                        &&& sequence::tries(parser.10, after.10, at[10], at[11], 10, last, error)
                    };
                if last == 0 {
                    assert(parser.0.gets(after.0, from, at[1], Err(error)));
                    assert(rest_after == rest);
                } else {
                    let output = choose|output: A::Output| #[trigger]
                        parser.0.gets(after.0, at[0], at[1], Ok(output));
                    let tail = at.skip(1);
                    let there = tail[last].with_marks(at[1].marks);
                    assert(sequence::undone(tail, last - 1, 10, at[1], there));
                    assert(rest.gets(rest_after, at[1], there, Err(error)));
                    assert(parser.0.gets(after.0, from, at[1], Ok(output)));
                }
            }
            if rest_after == rest {
                assert forall|at: StreamState|
                    {
                        &&& #[trigger] parser.0.gets(after.0, from, at, Err(error))
                        &&& to == (StreamState { marks: from.marks, ..at })
                    } implies parser.gets(after, from, to, r) by {
                    assert(sequence::undone(seq![from, at], 0, 11, from, to));
                }
            }
            assert forall|next: StreamState, there: StreamState, output: A::Output|
                {
                    &&& #[trigger] parser.0.gets(after.0, from, next, Ok(output))
                    &&& #[trigger] rest.gets(rest_after, next, there, Err(error))
                    &&& to == (StreamState { marks: from.marks, ..there })
                } implies parser.gets(after, from, to, r) by {
                let (tail, last) = choose|tail: Seq<StreamState>, last: int|
                    {
                        &&& #[trigger] sequence::undone(tail, last, 10, next, there)
                        &&& sequence::tries(parser.1, after.1, tail[0], tail[1], 0, last, error)
                        &&& sequence::tries(parser.2, after.2, tail[1], tail[2], 1, last, error)
                        &&& sequence::tries(parser.3, after.3, tail[2], tail[3], 2, last, error)
                        &&& sequence::tries(parser.4, after.4, tail[3], tail[4], 3, last, error)
                        &&& sequence::tries(parser.5, after.5, tail[4], tail[5], 4, last, error)
                        &&& sequence::tries(parser.6, after.6, tail[5], tail[6], 5, last, error)
                        &&& sequence::tries(parser.7, after.7, tail[6], tail[7], 6, last, error)
                        &&& sequence::tries(parser.8, after.8, tail[7], tail[8], 7, last, error)
                        &&& sequence::tries(parser.9, after.9, tail[8], tail[9], 8, last, error)
                        &&& sequence::tries(parser.10, after.10, tail[9], tail[10], 9, last, error)
                    };
                let at = seq![from] + tail;
                assert(sequence::undone(at, last + 1, 11, from, to));
                assert(parser.0.gets(after.0, at[0], at[1], Ok(output)));
            }
        },
    }
}

/// A tuple of twelve parsers does what the first one does if that one fails, and what the tuple of
/// the others does from where the first one succeeded otherwise. It can be applied where that can.
pub proof fn law_sequence_of_twelve<
    A: Parser,
    B: Parser<Input = A::Input>,
    C: Parser<Input = A::Input>,
    D: Parser<Input = A::Input>,
    E: Parser<Input = A::Input>,
    F: Parser<Input = A::Input>,
    G: Parser<Input = A::Input>,
    H: Parser<Input = A::Input>,
    I: Parser<Input = A::Input>,
    J: Parser<Input = A::Input>,
    K: Parser<Input = A::Input>,
    L: Parser<Input = A::Input>,
>(
    parser: (A, B, C, D, E, F, G, H, I, J, K, L),
    after: (A, B, C, D, E, F, G, H, I, J, K, L),
    from: StreamState,
    to: StreamState,
    error: Option<ParserError>,
)
    ensures
        parser.ready(from) <==> {
            let rest = (
                parser.1,
                parser.2,
                parser.3,
                parser.4,
                parser.5,
                parser.6,
                parser.7,
                parser.8,
                parser.9,
                parser.10,
                parser.11,
            );
            &&& parser.0.ready(from)
            &&& forall|next: A, at: StreamState| #[trigger]
                parser.0.parses(next, from, at, None) ==> rest.ready(at)
            &&& forall|next: A, at: StreamState, output: A::Output| #[trigger]
                parser.0.gets(next, from, at, Ok(output)) ==> rest.ready(at)
        },
        parser.parses(after, from, to, error) <==> {
            let rest = (
                parser.1,
                parser.2,
                parser.3,
                parser.4,
                parser.5,
                parser.6,
                parser.7,
                parser.8,
                parser.9,
                parser.10,
                parser.11,
            );
            let rest_after = (
                after.1,
                after.2,
                after.3,
                after.4,
                after.5,
                after.6,
                after.7,
                after.8,
                after.9,
                after.10,
                after.11,
            );
            ||| error is Some && parser.0.parses(after.0, from, to, error) && rest_after == rest
            ||| exists|at: StreamState|
                {
                    &&& #[trigger] parser.0.parses(after.0, from, at, None)
                    &&& rest.parses(rest_after, at, to, error)
                }
        },
{
    let rest = (
        parser.1,
        parser.2,
        parser.3,
        parser.4,
        parser.5,
        parser.6,
        parser.7,
        parser.8,
        parser.9,
        parser.10,
        parser.11,
    );
    let rest_after = (
        after.1,
        after.2,
        after.3,
        after.4,
        after.5,
        after.6,
        after.7,
        after.8,
        after.9,
        after.10,
        after.11,
    );
    if parser.parses(after, from, to, error) {
        let (at, last) = choose|at: Seq<StreamState>, last: int|
            {
                &&& #[trigger] sequence::route(at, last, 12, from, to, error)
                &&& sequence::step(parser.0, after.0, at[0], at[1], 0, last, error)
                &&& sequence::step(parser.1, after.1, at[1], at[2], 1, last, error)
                &&& sequence::step(parser.2, after.2, at[2], at[3], 2, last, error)
                &&& sequence::step(parser.3, after.3, at[3], at[4], 3, last, error)
                &&& sequence::step(parser.4, after.4, at[4], at[5], 4, last, error)
                &&& sequence::step(parser.5, after.5, at[5], at[6], 5, last, error)
                &&& sequence::step(parser.6, after.6, at[6], at[7], 6, last, error)
                &&& sequence::step(parser.7, after.7, at[7], at[8], 7, last, error)
                &&& sequence::step(parser.8, after.8, at[8], at[9], 8, last, error)
                &&& sequence::step(parser.9, after.9, at[9], at[10], 9, last, error)
                &&& sequence::step(parser.10, after.10, at[10], at[11], 10, last, error)
                &&& sequence::step(parser.11, after.11, at[11], at[12], 11, last, error)
            };
        if last > 0 {
            let tail = at.skip(1);
            assert(parser.0.parses(after.0, from, at[1], None));
            assert(sequence::route(tail, last - 1, 11, at[1], to, error));
            assert(rest.parses(rest_after, at[1], to, error));
        }
    }
    if error is Some && parser.0.parses(after.0, from, to, error) && rest_after == rest {
        assert(sequence::route(seq![from, to], 0, 12, from, to, error));
    }
    assert forall|next: StreamState|
        {
            &&& #[trigger] parser.0.parses(after.0, from, next, None)
            &&& rest.parses(rest_after, next, to, error)
        } implies parser.parses(after, from, to, error) by {
        let (tail, last) = choose|tail: Seq<StreamState>, last: int|
            {
                &&& #[trigger] sequence::route(tail, last, 11, next, to, error)
                &&& sequence::step(parser.1, after.1, tail[0], tail[1], 0, last, error)
                &&& sequence::step(parser.2, after.2, tail[1], tail[2], 1, last, error)
                &&& sequence::step(parser.3, after.3, tail[2], tail[3], 2, last, error)
                &&& sequence::step(parser.4, after.4, tail[3], tail[4], 3, last, error)
                &&& sequence::step(parser.5, after.5, tail[4], tail[5], 4, last, error)
                &&& sequence::step(parser.6, after.6, tail[5], tail[6], 5, last, error)
                &&& sequence::step(parser.7, after.7, tail[6], tail[7], 6, last, error)
                &&& sequence::step(parser.8, after.8, tail[7], tail[8], 7, last, error)
                &&& sequence::step(parser.9, after.9, tail[8], tail[9], 8, last, error)
                &&& sequence::step(parser.10, after.10, tail[9], tail[10], 9, last, error)
                &&& sequence::step(parser.11, after.11, tail[10], tail[11], 10, last, error)
            };
        let at = seq![from] + tail;
        assert(sequence::route(at, last + 1, 12, from, to, error));
    }
}

/// A tuple of twelve parsers gives the output of the first one and those of the tuple of the
/// others, which is applied while the output of the first one keeps what it holds. If one fails,
/// what the outputs hold is given back.
pub proof fn law_sequence_of_twelve_gives_all<
    A: Parser,
    B: Parser<Input = A::Input>,
    C: Parser<Input = A::Input>,
    D: Parser<Input = A::Input>,
    E: Parser<Input = A::Input>,
    F: Parser<Input = A::Input>,
    G: Parser<Input = A::Input>,
    H: Parser<Input = A::Input>,
    I: Parser<Input = A::Input>,
    J: Parser<Input = A::Input>,
    K: Parser<Input = A::Input>,
    L: Parser<Input = A::Input>,
>(
    parser: (A, B, C, D, E, F, G, H, I, J, K, L),
    after: (A, B, C, D, E, F, G, H, I, J, K, L),
    from: StreamState,
    to: StreamState,
    r: Result<(
        A::Output,
        B::Output,
        C::Output,
        D::Output,
        E::Output,
        F::Output,
        G::Output,
        H::Output,
        I::Output,
        J::Output,
        K::Output,
        L::Output,
    ), ParserError>,
)
    ensures
        parser.gets(after, from, to, r) <==> {
            let rest = (
                parser.1,
                parser.2,
                parser.3,
                parser.4,
                parser.5,
                parser.6,
                parser.7,
                parser.8,
                parser.9,
                parser.10,
                parser.11,
            );
            let rest_after = (
                after.1,
                after.2,
                after.3,
                after.4,
                after.5,
                after.6,
                after.7,
                after.8,
                after.9,
                after.10,
                after.11,
            );
            match r {
                Ok(output) => exists|at: StreamState|
                    {
                        &&& #[trigger] parser.0.gets(after.0, from, at, Ok(output.0))
                        &&& rest.gets(rest_after, at, to, Ok((
                            output.1,
                            output.2,
                            output.3,
                            output.4,
                            output.5,
                            output.6,
                            output.7,
                            output.8,
                            output.9,
                            output.10,
                            output.11,
                        )))
                    },
                Err(error) => {
                    ||| rest_after == rest && exists|at: StreamState|
                        {
                            &&& #[trigger] parser.0.gets(after.0, from, at, Err(error))
                            &&& to == (StreamState { marks: from.marks, ..at })
                        }
                    ||| exists|at: StreamState, there: StreamState, output: A::Output|
                        {
                            &&& #[trigger] parser.0.gets(after.0, from, at, Ok(output))
                            &&& #[trigger] rest.gets(rest_after, at, there, Err(error))
                            &&& to == (StreamState { marks: from.marks, ..there })
                        }
                },
            }
        },
{
    let rest = (
        parser.1,
        parser.2,
        parser.3,
        parser.4,
        parser.5,
        parser.6,
        parser.7,
        parser.8,
        parser.9,
        parser.10,
        parser.11,
    );
    let rest_after = (
        after.1,
        after.2,
        after.3,
        after.4,
        after.5,
        after.6,
        after.7,
        after.8,
        after.9,
        after.10,
        after.11,
    );
    match r {
        Ok(output) => {
            let others = (
                output.1,
                output.2,
                output.3,
                output.4,
                output.5,
                output.6,
                output.7,
                output.8,
                output.9,
                output.10,
                output.11,
            );
            if parser.gets(after, from, to, r) {
                let at = choose|at: Seq<StreamState>|
                    {
                        &&& #[trigger] sequence::route(at, 11, 12, from, to, None)
                        &&& parser.0.gets(after.0, at[0], at[1], Ok(output.0))
                        &&& parser.1.gets(after.1, at[1], at[2], Ok(output.1))
                        &&& parser.2.gets(after.2, at[2], at[3], Ok(output.2))
                        &&& parser.3.gets(after.3, at[3], at[4], Ok(output.3))
                        &&& parser.4.gets(after.4, at[4], at[5], Ok(output.4))
                        &&& parser.5.gets(after.5, at[5], at[6], Ok(output.5))
                        &&& parser.6.gets(after.6, at[6], at[7], Ok(output.6))
                        &&& parser.7.gets(after.7, at[7], at[8], Ok(output.7))
                        &&& parser.8.gets(after.8, at[8], at[9], Ok(output.8))
                        &&& parser.9.gets(after.9, at[9], at[10], Ok(output.9))
                        &&& parser.10.gets(after.10, at[10], at[11], Ok(output.10))
                        &&& parser.11.gets(after.11, at[11], at[12], Ok(output.11))
                    };
                let tail = at.skip(1);
                assert(parser.0.gets(after.0, from, at[1], Ok(output.0)));
                assert(sequence::route(tail, 10, 11, at[1], to, None));
                assert(rest.gets(rest_after, at[1], to, Ok(others)));
            }
            assert forall|next: StreamState|
                {
                    &&& #[trigger] parser.0.gets(after.0, from, next, Ok(output.0))
                    &&& rest.gets(rest_after, next, to, Ok(others))
                } implies parser.gets(after, from, to, r) by {
                let tail = choose|tail: Seq<StreamState>|
                    {
                        &&& #[trigger] sequence::route(tail, 10, 11, next, to, None)
                        &&& parser.1.gets(after.1, tail[0], tail[1], Ok(output.1))
                        &&& parser.2.gets(after.2, tail[1], tail[2], Ok(output.2))
                        &&& parser.3.gets(after.3, tail[2], tail[3], Ok(output.3))
                        &&& parser.4.gets(after.4, tail[3], tail[4], Ok(output.4))
                        &&& parser.5.gets(after.5, tail[4], tail[5], Ok(output.5))
                        &&& parser.6.gets(after.6, tail[5], tail[6], Ok(output.6))
                        &&& parser.7.gets(after.7, tail[6], tail[7], Ok(output.7))
                        &&& parser.8.gets(after.8, tail[7], tail[8], Ok(output.8))
                        &&& parser.9.gets(after.9, tail[8], tail[9], Ok(output.9))
                        &&& parser.10.gets(after.10, tail[9], tail[10], Ok(output.10))
                        &&& parser.11.gets(after.11, tail[10], tail[11], Ok(output.11))
                    };
                let at = seq![from] + tail;
                assert(sequence::route(at, 11, 12, from, to, None));
            }
        },
        Err(error) => {
            if parser.gets(after, from, to, r) {
                let (at, last) = choose|at: Seq<StreamState>, last: int|
                    {
                        &&& #[trigger] sequence::undone(at, last, 12, from, to)
                        &&& sequence::tries(parser.0, after.0, at[0], at[1], 0, last, error)
                        &&& sequence::tries(parser.1, after.1, at[1], at[2], 1, last, error)
                        &&& sequence::tries(parser.2, after.2, at[2], at[3], 2, last, error)
                        &&& sequence::tries(parser.3, after.3, at[3], at[4], 3, last, error)
                        &&& sequence::tries(parser.4, after.4, at[4], at[5], 4, last, error)
                        &&& sequence::tries(parser.5, after.5, at[5], at[6], 5, last, error)
                        &&& sequence::tries(parser.6, after.6, at[6], at[7], 6, last, error)
                        &&& sequence::tries(parser.7, after.7, at[7], at[8], 7, last, error)
                        &&& sequence::tries(parser.8, after.8, at[8], at[9], 8, last, error)
                        &&& sequence::tries(parser.9, after.9, at[9], at[10], 9, last, error)
                        &&& sequence::tries(parser.10, after.10, at[10], at[11], 10, last, error)
                        &&& sequence::tries(parser.11, after.11, at[11], at[12], 11, last, error)
                    };
                if last == 0 {
                    assert(parser.0.gets(after.0, from, at[1], Err(error)));
                    assert(rest_after == rest);
                } else {
                    let output = choose|output: A::Output| #[trigger]
                        parser.0.gets(after.0, at[0], at[1], Ok(output));
                    let tail = at.skip(1);
                    let there = tail[last].with_marks(at[1].marks);
                    assert(sequence::undone(tail, last - 1, 11, at[1], there));
                    assert(rest.gets(rest_after, at[1], there, Err(error)));
                    assert(parser.0.gets(after.0, from, at[1], Ok(output)));
                }
            }
            if rest_after == rest {
                assert forall|at: StreamState|
                    {
                        &&& #[trigger] parser.0.gets(after.0, from, at, Err(error))
                        &&& to == (StreamState { marks: from.marks, ..at })
                    } implies parser.gets(after, from, to, r) by {
                    assert(sequence::undone(seq![from, at], 0, 12, from, to));
                }
            }
            assert forall|next: StreamState, there: StreamState, output: A::Output|
                {
                    &&& #[trigger] parser.0.gets(after.0, from, next, Ok(output))
                    &&& #[trigger] rest.gets(rest_after, next, there, Err(error))
                    &&& to == (StreamState { marks: from.marks, ..there })
                } implies parser.gets(after, from, to, r) by {
                let (tail, last) = choose|tail: Seq<StreamState>, last: int|
                    {
                        &&& #[trigger] sequence::undone(tail, last, 11, next, there)
                        &&& sequence::tries(parser.1, after.1, tail[0], tail[1], 0, last, error)
                        &&& sequence::tries(parser.2, after.2, tail[1], tail[2], 1, last, error)
                        &&& sequence::tries(parser.3, after.3, tail[2], tail[3], 2, last, error)
                        &&& sequence::tries(parser.4, after.4, tail[3], tail[4], 3, last, error)
                        &&& sequence::tries(parser.5, after.5, tail[4], tail[5], 4, last, error)
                        &&& sequence::tries(parser.6, after.6, tail[5], tail[6], 5, last, error)
                        &&& sequence::tries(parser.7, after.7, tail[6], tail[7], 6, last, error)
                        &&& sequence::tries(parser.8, after.8, tail[7], tail[8], 7, last, error)
                        &&& sequence::tries(parser.9, after.9, tail[8], tail[9], 8, last, error)
                        &&& sequence::tries(parser.10, after.10, tail[9], tail[10], 9, last, error)
                        &&& sequence::tries(
                            parser.11,
                            after.11,
                            tail[10],
                            tail[11],
                            10,
                            last,
                            error,
                        )
                    };
                let at = seq![from] + tail;
                assert(sequence::undone(at, last + 1, 12, from, to));
                assert(parser.0.gets(after.0, at[0], at[1], Ok(output)));
            }
        },
    }
}

/// A tuple of thirteen parsers does what the first one does if that one fails, and what the tuple
/// of the others does from where the first one succeeded otherwise. It can be applied where that
/// can.
pub proof fn law_sequence_of_thirteen<
    A: Parser,
    B: Parser<Input = A::Input>,
    C: Parser<Input = A::Input>,
    D: Parser<Input = A::Input>,
    E: Parser<Input = A::Input>,
    F: Parser<Input = A::Input>,
    G: Parser<Input = A::Input>,
    H: Parser<Input = A::Input>,
    I: Parser<Input = A::Input>,
    J: Parser<Input = A::Input>,
    K: Parser<Input = A::Input>,
    L: Parser<Input = A::Input>,
    M: Parser<Input = A::Input>,
>(
    parser: (A, B, C, D, E, F, G, H, I, J, K, L, M),
    after: (A, B, C, D, E, F, G, H, I, J, K, L, M),
    from: StreamState,
    to: StreamState,
    error: Option<ParserError>,
)
    ensures
        parser.ready(from) <==> {
            let rest = (
                parser.1,
                parser.2,
                parser.3,
                parser.4,
                parser.5,
                parser.6,
                parser.7,
                parser.8,
                parser.9,
                parser.10,
                parser.11,
                parser.12,
            );
            &&& parser.0.ready(from)
            &&& forall|next: A, at: StreamState| #[trigger]
                parser.0.parses(next, from, at, None) ==> rest.ready(at)
            &&& forall|next: A, at: StreamState, output: A::Output| #[trigger]
                parser.0.gets(next, from, at, Ok(output)) ==> rest.ready(at)
        },
        parser.parses(after, from, to, error) <==> {
            let rest = (
                parser.1,
                parser.2,
                parser.3,
                parser.4,
                parser.5,
                parser.6,
                parser.7,
                parser.8,
                parser.9,
                parser.10,
                parser.11,
                parser.12,
            );
            let rest_after = (
                after.1,
                after.2,
                after.3,
                after.4,
                after.5,
                after.6,
                after.7,
                after.8,
                after.9,
                after.10,
                after.11,
                after.12,
            );
            ||| error is Some && parser.0.parses(after.0, from, to, error) && rest_after == rest
            ||| exists|at: StreamState|
                {
                    &&& #[trigger] parser.0.parses(after.0, from, at, None)
                    &&& rest.parses(rest_after, at, to, error)
                }
        },
{
    let rest = (
        parser.1,
        parser.2,
        parser.3,
        parser.4,
        parser.5,
        parser.6,
        parser.7,
        parser.8,
        parser.9,
        parser.10,
        parser.11,
        parser.12,
    );
    let rest_after = (
        after.1,
        after.2,
        after.3,
        after.4,
        after.5,
        after.6,
        after.7,
        after.8,
        after.9,
        after.10,
        after.11,
        after.12,
    );
    if parser.parses(after, from, to, error) {
        let (at, last) = choose|at: Seq<StreamState>, last: int|
            {
                &&& #[trigger] sequence::route(at, last, 13, from, to, error)
                &&& sequence::step(parser.0, after.0, at[0], at[1], 0, last, error)
                &&& sequence::step(parser.1, after.1, at[1], at[2], 1, last, error)
                &&& sequence::step(parser.2, after.2, at[2], at[3], 2, last, error)
                &&& sequence::step(parser.3, after.3, at[3], at[4], 3, last, error)
                &&& sequence::step(parser.4, after.4, at[4], at[5], 4, last, error)
                &&& sequence::step(parser.5, after.5, at[5], at[6], 5, last, error)
                &&& sequence::step(parser.6, after.6, at[6], at[7], 6, last, error)
                &&& sequence::step(parser.7, after.7, at[7], at[8], 7, last, error)
                &&& sequence::step(parser.8, after.8, at[8], at[9], 8, last, error)
                &&& sequence::step(parser.9, after.9, at[9], at[10], 9, last, error)
                &&& sequence::step(parser.10, after.10, at[10], at[11], 10, last, error)
                &&& sequence::step(parser.11, after.11, at[11], at[12], 11, last, error)
                &&& sequence::step(parser.12, after.12, at[12], at[13], 12, last, error)
            };
        if last > 0 {
            let tail = at.skip(1);
            assert(parser.0.parses(after.0, from, at[1], None));
            assert(sequence::route(tail, last - 1, 12, at[1], to, error));
            assert(rest.parses(rest_after, at[1], to, error));
        }
    }
    if error is Some && parser.0.parses(after.0, from, to, error) && rest_after == rest {
        assert(sequence::route(seq![from, to], 0, 13, from, to, error));
    }
    assert forall|next: StreamState|
        {
            &&& #[trigger] parser.0.parses(after.0, from, next, None)
            &&& rest.parses(rest_after, next, to, error)
        } implies parser.parses(after, from, to, error) by {
        let (tail, last) = choose|tail: Seq<StreamState>, last: int|
            {
                &&& #[trigger] sequence::route(tail, last, 12, next, to, error)
                &&& sequence::step(parser.1, after.1, tail[0], tail[1], 0, last, error)
                &&& sequence::step(parser.2, after.2, tail[1], tail[2], 1, last, error)
                &&& sequence::step(parser.3, after.3, tail[2], tail[3], 2, last, error)
                &&& sequence::step(parser.4, after.4, tail[3], tail[4], 3, last, error)
                &&& sequence::step(parser.5, after.5, tail[4], tail[5], 4, last, error)
                &&& sequence::step(parser.6, after.6, tail[5], tail[6], 5, last, error)
                &&& sequence::step(parser.7, after.7, tail[6], tail[7], 6, last, error)
                &&& sequence::step(parser.8, after.8, tail[7], tail[8], 7, last, error)
                &&& sequence::step(parser.9, after.9, tail[8], tail[9], 8, last, error)
                &&& sequence::step(parser.10, after.10, tail[9], tail[10], 9, last, error)
                &&& sequence::step(parser.11, after.11, tail[10], tail[11], 10, last, error)
                &&& sequence::step(parser.12, after.12, tail[11], tail[12], 11, last, error)
            };
        let at = seq![from] + tail;
        assert(sequence::route(at, last + 1, 13, from, to, error));
    }
}

/// A tuple of thirteen parsers gives the output of the first one and those of the tuple of the
/// others, which is applied while the output of the first one keeps what it holds. If one fails,
/// what the outputs hold is given back.
pub proof fn law_sequence_of_thirteen_gives_all<
    A: Parser,
    B: Parser<Input = A::Input>,
    C: Parser<Input = A::Input>,
    D: Parser<Input = A::Input>,
    E: Parser<Input = A::Input>,
    F: Parser<Input = A::Input>,
    G: Parser<Input = A::Input>,
    H: Parser<Input = A::Input>,
    I: Parser<Input = A::Input>,
    J: Parser<Input = A::Input>,
    K: Parser<Input = A::Input>,
    L: Parser<Input = A::Input>,
    M: Parser<Input = A::Input>,
>(
    parser: (A, B, C, D, E, F, G, H, I, J, K, L, M),
    after: (A, B, C, D, E, F, G, H, I, J, K, L, M),
    from: StreamState,
    to: StreamState,
    r: Result<(
        A::Output,
        B::Output,
        C::Output,
        D::Output,
        E::Output,
        F::Output,
        G::Output,
        H::Output,
        I::Output,
        J::Output,
        K::Output,
        L::Output,
        M::Output,
    ), ParserError>,
)
    ensures
        parser.gets(after, from, to, r) <==> {
            let rest = (
                parser.1,
                parser.2,
                parser.3,
                parser.4,
                parser.5,
                parser.6,
                parser.7,
                parser.8,
                parser.9,
                parser.10,
                parser.11,
                parser.12,
            );
            let rest_after = (
                after.1,
                after.2,
                after.3,
                after.4,
                after.5,
                after.6,
                after.7,
                after.8,
                after.9,
                after.10,
                after.11,
                after.12,
            );
            match r {
                Ok(output) => exists|at: StreamState|
                    {
                        &&& #[trigger] parser.0.gets(after.0, from, at, Ok(output.0))
                        &&& rest.gets(rest_after, at, to, Ok((
                            output.1,
                            output.2,
                            output.3,
                            output.4,
                            output.5,
                            output.6,
                            output.7,
                            output.8,
                            output.9,
                            output.10,
                            output.11,
                            output.12,
                        )))
                    },
                Err(error) => {
                    ||| rest_after == rest && exists|at: StreamState|
                        {
                            &&& #[trigger] parser.0.gets(after.0, from, at, Err(error))
                            &&& to == (StreamState { marks: from.marks, ..at })
                        }
                    ||| exists|at: StreamState, there: StreamState, output: A::Output|
                        {
                            &&& #[trigger] parser.0.gets(after.0, from, at, Ok(output))
                            &&& #[trigger] rest.gets(rest_after, at, there, Err(error))
                            &&& to == (StreamState { marks: from.marks, ..there })
                        }
                },
            }
        },
{
    let rest = (
        parser.1,
        parser.2,
        parser.3,
        parser.4,
        parser.5,
        parser.6,
        parser.7,
        parser.8,
        parser.9,
        parser.10,
        parser.11,
        parser.12,
    );
    let rest_after = (
        after.1,
        after.2,
        after.3,
        after.4,
        after.5,
        after.6,
        after.7,
        after.8,
        after.9,
        after.10,
        after.11,
        after.12,
    );
    match r {
        Ok(output) => {
            let others = (
                output.1,
                output.2,
                output.3,
                output.4,
                output.5,
                output.6,
                output.7,
                output.8,
                output.9,
                output.10,
                output.11,
                output.12,
            );
            if parser.gets(after, from, to, r) {
                let at = choose|at: Seq<StreamState>|
                    {
                        &&& #[trigger] sequence::route(at, 12, 13, from, to, None)
                        &&& parser.0.gets(after.0, at[0], at[1], Ok(output.0))
                        &&& parser.1.gets(after.1, at[1], at[2], Ok(output.1))
                        &&& parser.2.gets(after.2, at[2], at[3], Ok(output.2))
                        &&& parser.3.gets(after.3, at[3], at[4], Ok(output.3))
                        &&& parser.4.gets(after.4, at[4], at[5], Ok(output.4))
                        &&& parser.5.gets(after.5, at[5], at[6], Ok(output.5))
                        &&& parser.6.gets(after.6, at[6], at[7], Ok(output.6))
                        &&& parser.7.gets(after.7, at[7], at[8], Ok(output.7))
                        &&& parser.8.gets(after.8, at[8], at[9], Ok(output.8))
                        &&& parser.9.gets(after.9, at[9], at[10], Ok(output.9))
                        &&& parser.10.gets(after.10, at[10], at[11], Ok(output.10))
                        &&& parser.11.gets(after.11, at[11], at[12], Ok(output.11))
                        &&& parser.12.gets(after.12, at[12], at[13], Ok(output.12))
                    };
                let tail = at.skip(1);
                assert(parser.0.gets(after.0, from, at[1], Ok(output.0)));
                assert(sequence::route(tail, 11, 12, at[1], to, None));
                assert(rest.gets(rest_after, at[1], to, Ok(others)));
            }
            assert forall|next: StreamState|
                {
                    &&& #[trigger] parser.0.gets(after.0, from, next, Ok(output.0))
                    &&& rest.gets(rest_after, next, to, Ok(others))
                } implies parser.gets(after, from, to, r) by {
                let tail = choose|tail: Seq<StreamState>|
                    {
                        &&& #[trigger] sequence::route(tail, 11, 12, next, to, None)
                        &&& parser.1.gets(after.1, tail[0], tail[1], Ok(output.1))
                        &&& parser.2.gets(after.2, tail[1], tail[2], Ok(output.2))
                        &&& parser.3.gets(after.3, tail[2], tail[3], Ok(output.3))
                        &&& parser.4.gets(after.4, tail[3], tail[4], Ok(output.4))
                        &&& parser.5.gets(after.5, tail[4], tail[5], Ok(output.5))
                        &&& parser.6.gets(after.6, tail[5], tail[6], Ok(output.6))
                        &&& parser.7.gets(after.7, tail[6], tail[7], Ok(output.7))
                        &&& parser.8.gets(after.8, tail[7], tail[8], Ok(output.8))
                        &&& parser.9.gets(after.9, tail[8], tail[9], Ok(output.9))
                        &&& parser.10.gets(after.10, tail[9], tail[10], Ok(output.10))
                        &&& parser.11.gets(after.11, tail[10], tail[11], Ok(output.11))
                        &&& parser.12.gets(after.12, tail[11], tail[12], Ok(output.12))
                    };
                let at = seq![from] + tail;
                assert(sequence::route(at, 12, 13, from, to, None));
            }
        },
        Err(error) => {
            if parser.gets(after, from, to, r) {
                let (at, last) = choose|at: Seq<StreamState>, last: int|
                    {
                        &&& #[trigger] sequence::undone(at, last, 13, from, to)
                        &&& sequence::tries(parser.0, after.0, at[0], at[1], 0, last, error)
                        &&& sequence::tries(parser.1, after.1, at[1], at[2], 1, last, error)
                        &&& sequence::tries(parser.2, after.2, at[2], at[3], 2, last, error)
                        &&& sequence::tries(parser.3, after.3, at[3], at[4], 3, last, error)
                        &&& sequence::tries(parser.4, after.4, at[4], at[5], 4, last, error)
                        &&& sequence::tries(parser.5, after.5, at[5], at[6], 5, last, error)
                        &&& sequence::tries(parser.6, after.6, at[6], at[7], 6, last, error)
                        &&& sequence::tries(parser.7, after.7, at[7], at[8], 7, last, error)
                        &&& sequence::tries(parser.8, after.8, at[8], at[9], 8, last, error)
                        &&& sequence::tries(parser.9, after.9, at[9], at[10], 9, last, error)
                        &&& sequence::tries(parser.10, after.10, at[10], at[11], 10, last, error)
                        &&& sequence::tries(parser.11, after.11, at[11], at[12], 11, last, error)
                        &&& sequence::tries(parser.12, after.12, at[12], at[13], 12, last, error)
                    };
                if last == 0 {
                    assert(parser.0.gets(after.0, from, at[1], Err(error)));
                    assert(rest_after == rest);
                } else {
                    let output = choose|output: A::Output| #[trigger]
                        parser.0.gets(after.0, at[0], at[1], Ok(output));
                    let tail = at.skip(1);
                    let there = tail[last].with_marks(at[1].marks);
                    assert(sequence::undone(tail, last - 1, 12, at[1], there));
                    assert(rest.gets(rest_after, at[1], there, Err(error)));
                    assert(parser.0.gets(after.0, from, at[1], Ok(output)));
                }
            }
            if rest_after == rest {
                assert forall|at: StreamState|
                    {
                        &&& #[trigger] parser.0.gets(after.0, from, at, Err(error))
                        &&& to == (StreamState { marks: from.marks, ..at })
                    } implies parser.gets(after, from, to, r) by {
                    assert(sequence::undone(seq![from, at], 0, 13, from, to));
                }
            }
            assert forall|next: StreamState, there: StreamState, output: A::Output|
                {
                    &&& #[trigger] parser.0.gets(after.0, from, next, Ok(output))
                    &&& #[trigger] rest.gets(rest_after, next, there, Err(error))
                    &&& to == (StreamState { marks: from.marks, ..there })
                } implies parser.gets(after, from, to, r) by {
                let (tail, last) = choose|tail: Seq<StreamState>, last: int|
                    {
                        &&& #[trigger] sequence::undone(tail, last, 12, next, there)
                        &&& sequence::tries(parser.1, after.1, tail[0], tail[1], 0, last, error)
                        &&& sequence::tries(parser.2, after.2, tail[1], tail[2], 1, last, error)
                        &&& sequence::tries(parser.3, after.3, tail[2], tail[3], 2, last, error)
                        &&& sequence::tries(parser.4, after.4, tail[3], tail[4], 3, last, error)
                        &&& sequence::tries(parser.5, after.5, tail[4], tail[5], 4, last, error)
                        &&& sequence::tries(parser.6, after.6, tail[5], tail[6], 5, last, error)
                        &&& sequence::tries(parser.7, after.7, tail[6], tail[7], 6, last, error)
                        &&& sequence::tries(parser.8, after.8, tail[7], tail[8], 7, last, error)
                        &&& sequence::tries(parser.9, after.9, tail[8], tail[9], 8, last, error)
                        &&& sequence::tries(parser.10, after.10, tail[9], tail[10], 9, last, error)
                        &&& sequence::tries(
                            parser.11,
                            after.11,
                            tail[10],
                            tail[11],
                            10,
                            last,
                            error,
                        )
                        &&& sequence::tries(
                            parser.12,
                            after.12,
                            tail[11],
                            tail[12],
                            11,
                            last,
                            error,
                        )
                    };
                let at = seq![from] + tail;
                assert(sequence::undone(at, last + 1, 13, from, to));
                assert(parser.0.gets(after.0, at[0], at[1], Ok(output)));
            }
        },
    }
}

/// A tuple of fourteen parsers does what the first one does if that one fails, and what the tuple
/// of the others does from where the first one succeeded otherwise. It can be applied where that
/// can.
pub proof fn law_sequence_of_fourteen<
    A: Parser,
    B: Parser<Input = A::Input>,
    C: Parser<Input = A::Input>,
    D: Parser<Input = A::Input>,
    E: Parser<Input = A::Input>,
    F: Parser<Input = A::Input>,
    G: Parser<Input = A::Input>,
    H: Parser<Input = A::Input>,
    I: Parser<Input = A::Input>,
    J: Parser<Input = A::Input>,
    K: Parser<Input = A::Input>,
    L: Parser<Input = A::Input>,
    M: Parser<Input = A::Input>,
    N: Parser<Input = A::Input>,
>(
    parser: (A, B, C, D, E, F, G, H, I, J, K, L, M, N),
    after: (A, B, C, D, E, F, G, H, I, J, K, L, M, N),
    from: StreamState,
    to: StreamState,
    error: Option<ParserError>,
)
    ensures
        parser.ready(from) <==> {
            let rest = (
                parser.1,
                parser.2,
                parser.3,
                parser.4,
                parser.5,
                parser.6,
                parser.7,
                parser.8,
                parser.9,
                parser.10,
                parser.11,
                parser.12,
                parser.13,
            );
            &&& parser.0.ready(from)
            &&& forall|next: A, at: StreamState| #[trigger]
                parser.0.parses(next, from, at, None) ==> rest.ready(at)
            &&& forall|next: A, at: StreamState, output: A::Output| #[trigger]
                parser.0.gets(next, from, at, Ok(output)) ==> rest.ready(at)
        },
        parser.parses(after, from, to, error) <==> {
            let rest = (
                parser.1,
                parser.2,
                parser.3,
                parser.4,
                parser.5,
                parser.6,
                parser.7,
                parser.8,
                parser.9,
                parser.10,
                parser.11,
                parser.12,
                parser.13,
            );
            let rest_after = (
                after.1,
                after.2,
                after.3,
                after.4,
                after.5,
                after.6,
                after.7,
                after.8,
                after.9,
                after.10,
                after.11,
                after.12,
                after.13,
            );
            ||| error is Some && parser.0.parses(after.0, from, to, error) && rest_after == rest
            ||| exists|at: StreamState|
                {
                    &&& #[trigger] parser.0.parses(after.0, from, at, None)
                    &&& rest.parses(rest_after, at, to, error)
                }
        },
{
    let rest = (
        parser.1,
        parser.2,
        parser.3,
        parser.4,
        parser.5,
        parser.6,
        parser.7,
        parser.8,
        parser.9,
        parser.10,
        parser.11,
        parser.12,
        parser.13,
    );
    let rest_after = (
        after.1,
        after.2,
        after.3,
        after.4,
        after.5,
        after.6,
        after.7,
        after.8,
        after.9,
        after.10,
        after.11,
        after.12,
        after.13,
    );
    if parser.parses(after, from, to, error) {
        let (at, last) = choose|at: Seq<StreamState>, last: int|
            {
                &&& #[trigger] sequence::route(at, last, 14, from, to, error)
                &&& sequence::step(parser.0, after.0, at[0], at[1], 0, last, error)
                &&& sequence::step(parser.1, after.1, at[1], at[2], 1, last, error)
                &&& sequence::step(parser.2, after.2, at[2], at[3], 2, last, error)
                &&& sequence::step(parser.3, after.3, at[3], at[4], 3, last, error)
                &&& sequence::step(parser.4, after.4, at[4], at[5], 4, last, error)
                &&& sequence::step(parser.5, after.5, at[5], at[6], 5, last, error)
                &&& sequence::step(parser.6, after.6, at[6], at[7], 6, last, error)
                &&& sequence::step(parser.7, after.7, at[7], at[8], 7, last, error)
                &&& sequence::step(parser.8, after.8, at[8], at[9], 8, last, error)
                &&& sequence::step(parser.9, after.9, at[9], at[10], 9, last, error)
                &&& sequence::step(parser.10, after.10, at[10], at[11], 10, last, error)
                &&& sequence::step(parser.11, after.11, at[11], at[12], 11, last, error)
                &&& sequence::step(parser.12, after.12, at[12], at[13], 12, last, error)
                &&& sequence::step(parser.13, after.13, at[13], at[14], 13, last, error)
            };
        if last > 0 {
            let tail = at.skip(1);
            assert(parser.0.parses(after.0, from, at[1], None));
            assert(sequence::route(tail, last - 1, 13, at[1], to, error));
            assert(rest.parses(rest_after, at[1], to, error));
        }
    }
    if error is Some && parser.0.parses(after.0, from, to, error) && rest_after == rest {
        assert(sequence::route(seq![from, to], 0, 14, from, to, error));
    }
    assert forall|next: StreamState|
        {
            &&& #[trigger] parser.0.parses(after.0, from, next, None)
            &&& rest.parses(rest_after, next, to, error)
        } implies parser.parses(after, from, to, error) by {
        let (tail, last) = choose|tail: Seq<StreamState>, last: int|
            {
                &&& #[trigger] sequence::route(tail, last, 13, next, to, error)
                &&& sequence::step(parser.1, after.1, tail[0], tail[1], 0, last, error)
                &&& sequence::step(parser.2, after.2, tail[1], tail[2], 1, last, error)
                &&& sequence::step(parser.3, after.3, tail[2], tail[3], 2, last, error)
                &&& sequence::step(parser.4, after.4, tail[3], tail[4], 3, last, error)
                &&& sequence::step(parser.5, after.5, tail[4], tail[5], 4, last, error)
                &&& sequence::step(parser.6, after.6, tail[5], tail[6], 5, last, error)
                &&& sequence::step(parser.7, after.7, tail[6], tail[7], 6, last, error)
                &&& sequence::step(parser.8, after.8, tail[7], tail[8], 7, last, error)
                &&& sequence::step(parser.9, after.9, tail[8], tail[9], 8, last, error)
                &&& sequence::step(parser.10, after.10, tail[9], tail[10], 9, last, error)
                &&& sequence::step(parser.11, after.11, tail[10], tail[11], 10, last, error)
                &&& sequence::step(parser.12, after.12, tail[11], tail[12], 11, last, error)
                &&& sequence::step(parser.13, after.13, tail[12], tail[13], 12, last, error)
            };
        let at = seq![from] + tail;
        assert(sequence::route(at, last + 1, 14, from, to, error));
    }
}

/// A tuple of fourteen parsers gives the output of the first one and those of the tuple of the
/// others, which is applied while the output of the first one keeps what it holds. If one fails,
/// what the outputs hold is given back.
pub proof fn law_sequence_of_fourteen_gives_all<
    A: Parser,
    B: Parser<Input = A::Input>,
    C: Parser<Input = A::Input>,
    D: Parser<Input = A::Input>,
    E: Parser<Input = A::Input>,
    F: Parser<Input = A::Input>,
    G: Parser<Input = A::Input>,
    H: Parser<Input = A::Input>,
    I: Parser<Input = A::Input>,
    J: Parser<Input = A::Input>,
    K: Parser<Input = A::Input>,
    L: Parser<Input = A::Input>,
    M: Parser<Input = A::Input>,
    N: Parser<Input = A::Input>,
>(
    parser: (A, B, C, D, E, F, G, H, I, J, K, L, M, N),
    after: (A, B, C, D, E, F, G, H, I, J, K, L, M, N),
    from: StreamState,
    to: StreamState,
    r: Result<(
        A::Output,
        B::Output,
        C::Output,
        D::Output,
        E::Output,
        F::Output,
        G::Output,
        H::Output,
        I::Output,
        J::Output,
        K::Output,
        L::Output,
        M::Output,
        N::Output,
    ), ParserError>,
)
    ensures
        parser.gets(after, from, to, r) <==> {
            let rest = (
                parser.1,
                parser.2,
                parser.3,
                parser.4,
                parser.5,
                parser.6,
                parser.7,
                parser.8,
                parser.9,
                parser.10,
                parser.11,
                parser.12,
                parser.13,
            );
            let rest_after = (
                after.1,
                after.2,
                after.3,
                after.4,
                after.5,
                after.6,
                after.7,
                after.8,
                after.9,
                after.10,
                after.11,
                after.12,
                after.13,
            );
            match r {
                Ok(output) => exists|at: StreamState|
                    {
                        &&& #[trigger] parser.0.gets(after.0, from, at, Ok(output.0))
                        &&& rest.gets(rest_after, at, to, Ok((
                            output.1,
                            output.2,
                            output.3,
                            output.4,
                            output.5,
                            output.6,
                            output.7,
                            output.8,
                            output.9,
                            output.10,
                            output.11,
                            output.12,
                            output.13,
                        )))
                    },
                Err(error) => {
                    ||| rest_after == rest && exists|at: StreamState|
                        {
                            &&& #[trigger] parser.0.gets(after.0, from, at, Err(error))
                            &&& to == (StreamState { marks: from.marks, ..at })
                        }
                    ||| exists|at: StreamState, there: StreamState, output: A::Output|
                        {
                            &&& #[trigger] parser.0.gets(after.0, from, at, Ok(output))
                            &&& #[trigger] rest.gets(rest_after, at, there, Err(error))
                            &&& to == (StreamState { marks: from.marks, ..there })
                        }
                },
            }
        },
{
    let rest = (
        parser.1,
        parser.2,
        parser.3,
        parser.4,
        parser.5,
        parser.6,
        parser.7,
        parser.8,
        parser.9,
        parser.10,
        parser.11,
        parser.12,
        parser.13,
    );
    let rest_after = (
        after.1,
        after.2,
        after.3,
        after.4,
        after.5,
        after.6,
        after.7,
        after.8,
        after.9,
        after.10,
        after.11,
        after.12,
        after.13,
    );
    match r {
        Ok(output) => {
            let others = (
                output.1,
                output.2,
                output.3,
                output.4,
                output.5,
                output.6,
                output.7,
                output.8,
                output.9,
                output.10,
                output.11,
                output.12,
                output.13,
            );
            if parser.gets(after, from, to, r) {
                let at = choose|at: Seq<StreamState>|
                    {
                        &&& #[trigger] sequence::route(at, 13, 14, from, to, None)
                        &&& parser.0.gets(after.0, at[0], at[1], Ok(output.0))
                        &&& parser.1.gets(after.1, at[1], at[2], Ok(output.1))
                        &&& parser.2.gets(after.2, at[2], at[3], Ok(output.2))
                        &&& parser.3.gets(after.3, at[3], at[4], Ok(output.3))
                        &&& parser.4.gets(after.4, at[4], at[5], Ok(output.4))
                        &&& parser.5.gets(after.5, at[5], at[6], Ok(output.5))
                        &&& parser.6.gets(after.6, at[6], at[7], Ok(output.6))
                        &&& parser.7.gets(after.7, at[7], at[8], Ok(output.7))
                        &&& parser.8.gets(after.8, at[8], at[9], Ok(output.8))
                        &&& parser.9.gets(after.9, at[9], at[10], Ok(output.9))
                        &&& parser.10.gets(after.10, at[10], at[11], Ok(output.10))
                        &&& parser.11.gets(after.11, at[11], at[12], Ok(output.11))
                        &&& parser.12.gets(after.12, at[12], at[13], Ok(output.12))
                        &&& parser.13.gets(after.13, at[13], at[14], Ok(output.13))
                    };
                let tail = at.skip(1);
                assert(parser.0.gets(after.0, from, at[1], Ok(output.0)));
                assert(sequence::route(tail, 12, 13, at[1], to, None));
                assert(rest.gets(rest_after, at[1], to, Ok(others)));
            }
            assert forall|next: StreamState|
                {
                    &&& #[trigger] parser.0.gets(after.0, from, next, Ok(output.0))
                    &&& rest.gets(rest_after, next, to, Ok(others))
                } implies parser.gets(after, from, to, r) by {
                let tail = choose|tail: Seq<StreamState>|
                    {
                        &&& #[trigger] sequence::route(tail, 12, 13, next, to, None)
                        &&& parser.1.gets(after.1, tail[0], tail[1], Ok(output.1))
                        &&& parser.2.gets(after.2, tail[1], tail[2], Ok(output.2))
                        &&& parser.3.gets(after.3, tail[2], tail[3], Ok(output.3))
                        &&& parser.4.gets(after.4, tail[3], tail[4], Ok(output.4))
                        &&& parser.5.gets(after.5, tail[4], tail[5], Ok(output.5))
                        &&& parser.6.gets(after.6, tail[5], tail[6], Ok(output.6))
                        &&& parser.7.gets(after.7, tail[6], tail[7], Ok(output.7))
                        &&& parser.8.gets(after.8, tail[7], tail[8], Ok(output.8))
                        &&& parser.9.gets(after.9, tail[8], tail[9], Ok(output.9))
                        &&& parser.10.gets(after.10, tail[9], tail[10], Ok(output.10))
                        &&& parser.11.gets(after.11, tail[10], tail[11], Ok(output.11))
                        &&& parser.12.gets(after.12, tail[11], tail[12], Ok(output.12))
                        &&& parser.13.gets(after.13, tail[12], tail[13], Ok(output.13))
                    };
                let at = seq![from] + tail;
                assert(sequence::route(at, 13, 14, from, to, None));
            }
        },
        Err(error) => {
            if parser.gets(after, from, to, r) {
                let (at, last) = choose|at: Seq<StreamState>, last: int|
                    {
                        &&& #[trigger] sequence::undone(at, last, 14, from, to)
                        &&& sequence::tries(parser.0, after.0, at[0], at[1], 0, last, error)
                        &&& sequence::tries(parser.1, after.1, at[1], at[2], 1, last, error)
                        &&& sequence::tries(parser.2, after.2, at[2], at[3], 2, last, error)
                        &&& sequence::tries(parser.3, after.3, at[3], at[4], 3, last, error)
                        &&& sequence::tries(parser.4, after.4, at[4], at[5], 4, last, error)
                        &&& sequence::tries(parser.5, after.5, at[5], at[6], 5, last, error)
                        &&& sequence::tries(parser.6, after.6, at[6], at[7], 6, last, error)
                        &&& sequence::tries(parser.7, after.7, at[7], at[8], 7, last, error)
                        &&& sequence::tries(parser.8, after.8, at[8], at[9], 8, last, error)
                        &&& sequence::tries(parser.9, after.9, at[9], at[10], 9, last, error)
                        &&& sequence::tries(parser.10, after.10, at[10], at[11], 10, last, error)
                        &&& sequence::tries(parser.11, after.11, at[11], at[12], 11, last, error)
                        &&& sequence::tries(parser.12, after.12, at[12], at[13], 12, last, error)
                        &&& sequence::tries(parser.13, after.13, at[13], at[14], 13, last, error)
                    };
                if last == 0 {
                    assert(parser.0.gets(after.0, from, at[1], Err(error)));
                    assert(rest_after == rest);
                } else {
                    let output = choose|output: A::Output| #[trigger]
                        parser.0.gets(after.0, at[0], at[1], Ok(output));
                    let tail = at.skip(1);
                    let there = tail[last].with_marks(at[1].marks);
                    assert(sequence::undone(tail, last - 1, 13, at[1], there));
                    assert(rest.gets(rest_after, at[1], there, Err(error)));
                    assert(parser.0.gets(after.0, from, at[1], Ok(output)));
                }
            }
            if rest_after == rest {
                assert forall|at: StreamState|
                    {
                        &&& #[trigger] parser.0.gets(after.0, from, at, Err(error))
                        &&& to == (StreamState { marks: from.marks, ..at })
                    } implies parser.gets(after, from, to, r) by {
                    assert(sequence::undone(seq![from, at], 0, 14, from, to));
                }
            }
            assert forall|next: StreamState, there: StreamState, output: A::Output|
                {
                    &&& #[trigger] parser.0.gets(after.0, from, next, Ok(output))
                    &&& #[trigger] rest.gets(rest_after, next, there, Err(error))
                    &&& to == (StreamState { marks: from.marks, ..there })
                } implies parser.gets(after, from, to, r) by {
                let (tail, last) = choose|tail: Seq<StreamState>, last: int|
                    {
                        &&& #[trigger] sequence::undone(tail, last, 13, next, there)
                        &&& sequence::tries(parser.1, after.1, tail[0], tail[1], 0, last, error)
                        &&& sequence::tries(parser.2, after.2, tail[1], tail[2], 1, last, error)
                        &&& sequence::tries(parser.3, after.3, tail[2], tail[3], 2, last, error)
                        &&& sequence::tries(parser.4, after.4, tail[3], tail[4], 3, last, error)
                        &&& sequence::tries(parser.5, after.5, tail[4], tail[5], 4, last, error)
                        &&& sequence::tries(parser.6, after.6, tail[5], tail[6], 5, last, error)
                        &&& sequence::tries(parser.7, after.7, tail[6], tail[7], 6, last, error)
                        &&& sequence::tries(parser.8, after.8, tail[7], tail[8], 7, last, error)
                        &&& sequence::tries(parser.9, after.9, tail[8], tail[9], 8, last, error)
                        &&& sequence::tries(parser.10, after.10, tail[9], tail[10], 9, last, error)
                        &&& sequence::tries(
                            parser.11,
                            after.11,
                            tail[10],
                            tail[11],
                            10,
                            last,
                            error,
                        )
                        &&& sequence::tries(
                            parser.12,
                            after.12,
                            tail[11],
                            tail[12],
                            11,
                            last,
                            error,
                        )
                        &&& sequence::tries(
                            parser.13,
                            after.13,
                            tail[12],
                            tail[13],
                            12,
                            last,
                            error,
                        )
                    };
                let at = seq![from] + tail;
                assert(sequence::undone(at, last + 1, 14, from, to));
                assert(parser.0.gets(after.0, at[0], at[1], Ok(output)));
            }
        },
    }
}

/// If a parser acts alike whether its output is asked for or not, so does a tuple of it.
pub proof fn law_sequence_of_one_acts_alike<A: Parser>()
    requires
        parsers::acts_alike::<A>(),
    ensures
        parsers::acts_alike::<(A,)>(),
{
    assert forall|
        p: (A,),
        after: (A,),
        from: StreamState,
        to: StreamState,
        error: Option<ParserError>,
    | #[trigger]
        p.parses(after, from, to, error) implies to.marks == from.marks by {
        law_sequence_of_one(p, after, from, to, error, Err(arbitrary()));
    }
    assert forall|
        p: (A,),
        after: (A,),
        from: StreamState,
        to: StreamState,
        r: Result<(A::Output,), ParserError>,
    | #[trigger]
        p.gets(after, from, to, r) implies to.marks == from.marks && p.parses(
        after,
        from,
        to,
        parser::failure(r),
    ) by {
        law_sequence_of_one(p, after, from, to, parser::failure(r), r);
        if let Err(e) = r {
            let at = choose|at: StreamState|
                {
                    &&& #[trigger] p.0.gets(after.0, from, at, Err(e))
                    &&& to == (StreamState { marks: from.marks, ..at })
                };
            assert(to == at);
        }
    }
}

/// If two parsers act alike whether their outputs are asked for or not, so does a tuple of them.
pub proof fn law_sequence_of_two_acts_alike<
    A: Parser,
    B: Parser<Input = A::Input>,
>()
    requires
        parsers::acts_alike::<A>(),
        parsers::acts_alike::<B>(),
    ensures
        parsers::acts_alike::<(A, B)>(),
{
    law_sequence_of_one_acts_alike::<B>();
    assert forall|
        p: (A, B),
        after: (A, B),
        from: StreamState,
        to: StreamState,
        error: Option<ParserError>,
    | #[trigger]
        p.parses(after, from, to, error) implies to.marks == from.marks by {
        law_sequence_of_two(p, after, from, to, error);
    }
    assert forall|
        p: (A, B),
        after: (A, B),
        from: StreamState,
        to: StreamState,
        r: Result<(A::Output, B::Output), ParserError>,
    | #[trigger]
        p.gets(after, from, to, r) implies to.marks == from.marks && p.parses(
        after,
        from,
        to,
        parser::failure(r),
    ) by {
        let rest = (p.1,);
        let rest_after = (after.1,);
        law_sequence_of_two_gives_all(p, after, from, to, r);
        law_sequence_of_two(p, after, from, to, parser::failure(r));
        match r {
            Ok(output) => {
                let others = (output.1,);
                let at = choose|at: StreamState|
                    {
                        &&& #[trigger] p.0.gets(after.0, from, at, Ok(output.0))
                        &&& rest.gets(rest_after, at, to, Ok(others))
                    };
                assert(p.0.parses(after.0, from, at, None));
                assert(rest.parses(rest_after, at, to, None));
            },
            Err(error) => {
                if rest_after == rest && exists|at: StreamState|
                    {
                        &&& #[trigger] p.0.gets(after.0, from, at, Err(error))
                        &&& to == (StreamState { marks: from.marks, ..at })
                    } {
                    let at = choose|at: StreamState|
                        {
                            &&& #[trigger] p.0.gets(after.0, from, at, Err(error))
                            &&& to == (StreamState { marks: from.marks, ..at })
                        };
                    assert(to == at);
                } else {
                    let (at, there, output) = choose|
                        at: StreamState,
                        there: StreamState,
                        output: A::Output,
                    |
                        {
                            &&& #[trigger] p.0.gets(after.0, from, at, Ok(output))
                            &&& #[trigger] rest.gets(rest_after, at, there, Err(error))
                            &&& to == (StreamState { marks: from.marks, ..there })
                        };
                    assert(p.0.parses(after.0, from, at, None));
                    assert(rest.parses(rest_after, at, there, Some(error)));
                    assert(to == there);
                }
            },
        }
    }
}

/// If three parsers act alike whether their outputs are asked for or not, so does a tuple of them.
pub proof fn law_sequence_of_three_acts_alike<
    A: Parser,
    B: Parser<Input = A::Input>,
    C: Parser<Input = A::Input>,
>()
    requires
        parsers::acts_alike::<A>(),
        parsers::acts_alike::<B>(),
        parsers::acts_alike::<C>(),
    ensures
        parsers::acts_alike::<(A, B, C)>(),
{
    law_sequence_of_two_acts_alike::<B, C>();
    assert forall|
        p: (A, B, C),
        after: (A, B, C),
        from: StreamState,
        to: StreamState,
        error: Option<ParserError>,
    | #[trigger]
        p.parses(after, from, to, error) implies to.marks == from.marks by {
        law_sequence_of_three(p, after, from, to, error);
    }
    assert forall|
        p: (A, B, C),
        after: (A, B, C),
        from: StreamState,
        to: StreamState,
        r: Result<(A::Output, B::Output, C::Output), ParserError>,
    | #[trigger]
        p.gets(after, from, to, r) implies to.marks == from.marks && p.parses(
        after,
        from,
        to,
        parser::failure(r),
    ) by {
        let rest = (p.1, p.2);
        let rest_after = (after.1, after.2);
        law_sequence_of_three_gives_all(p, after, from, to, r);
        law_sequence_of_three(p, after, from, to, parser::failure(r));
        match r {
            Ok(output) => {
                let others = (output.1, output.2);
                let at = choose|at: StreamState|
                    {
                        &&& #[trigger] p.0.gets(after.0, from, at, Ok(output.0))
                        &&& rest.gets(rest_after, at, to, Ok(others))
                    };
                assert(p.0.parses(after.0, from, at, None));
                assert(rest.parses(rest_after, at, to, None));
            },
            Err(error) => {
                if rest_after == rest && exists|at: StreamState|
                    {
                        &&& #[trigger] p.0.gets(after.0, from, at, Err(error))
                        &&& to == (StreamState { marks: from.marks, ..at })
                    } {
                    let at = choose|at: StreamState|
                        {
                            &&& #[trigger] p.0.gets(after.0, from, at, Err(error))
                            &&& to == (StreamState { marks: from.marks, ..at })
                        };
                    assert(to == at);
                } else {
                    let (at, there, output) = choose|
                        at: StreamState,
                        there: StreamState,
                        output: A::Output,
                    |
                        {
                            &&& #[trigger] p.0.gets(after.0, from, at, Ok(output))
                            &&& #[trigger] rest.gets(rest_after, at, there, Err(error))
                            &&& to == (StreamState { marks: from.marks, ..there })
                        };
                    assert(p.0.parses(after.0, from, at, None));
                    assert(rest.parses(rest_after, at, there, Some(error)));
                    assert(to == there);
                }
            },
        }
    }
}

/// If four parsers act alike whether their outputs are asked for or not, so does a tuple of them.
pub proof fn law_sequence_of_four_acts_alike<
    A: Parser,
    B: Parser<Input = A::Input>,
    C: Parser<Input = A::Input>,
    D: Parser<Input = A::Input>,
>()
    requires
        parsers::acts_alike::<A>(),
        parsers::acts_alike::<B>(),
        parsers::acts_alike::<C>(),
        parsers::acts_alike::<D>(),
    ensures
        parsers::acts_alike::<(A, B, C, D)>(),
{
    law_sequence_of_three_acts_alike::<B, C, D>();
    assert forall|
        p: (A, B, C, D),
        after: (A, B, C, D),
        from: StreamState,
        to: StreamState,
        error: Option<ParserError>,
    | #[trigger]
        p.parses(after, from, to, error) implies to.marks == from.marks by {
        law_sequence_of_four(p, after, from, to, error);
    }
    assert forall|
        p: (A, B, C, D),
        after: (A, B, C, D),
        from: StreamState,
        to: StreamState,
        r: Result<(A::Output, B::Output, C::Output, D::Output), ParserError>,
    | #[trigger]
        p.gets(after, from, to, r) implies to.marks == from.marks && p.parses(
        after,
        from,
        to,
        parser::failure(r),
    ) by {
        let rest = (p.1, p.2, p.3);
        let rest_after = (after.1, after.2, after.3);
        law_sequence_of_four_gives_all(p, after, from, to, r);
        law_sequence_of_four(p, after, from, to, parser::failure(r));
        match r {
            Ok(output) => {
                let others = (output.1, output.2, output.3);
                let at = choose|at: StreamState|
                    {
                        &&& #[trigger] p.0.gets(after.0, from, at, Ok(output.0))
                        &&& rest.gets(rest_after, at, to, Ok(others))
                    };
                assert(p.0.parses(after.0, from, at, None));
                assert(rest.parses(rest_after, at, to, None));
            },
            Err(error) => {
                if rest_after == rest && exists|at: StreamState|
                    {
                        &&& #[trigger] p.0.gets(after.0, from, at, Err(error))
                        &&& to == (StreamState { marks: from.marks, ..at })
                    } {
                    let at = choose|at: StreamState|
                        {
                            &&& #[trigger] p.0.gets(after.0, from, at, Err(error))
                            &&& to == (StreamState { marks: from.marks, ..at })
                        };
                    assert(to == at);
                } else {
                    let (at, there, output) = choose|
                        at: StreamState,
                        there: StreamState,
                        output: A::Output,
                    |
                        {
                            &&& #[trigger] p.0.gets(after.0, from, at, Ok(output))
                            &&& #[trigger] rest.gets(rest_after, at, there, Err(error))
                            &&& to == (StreamState { marks: from.marks, ..there })
                        };
                    assert(p.0.parses(after.0, from, at, None));
                    assert(rest.parses(rest_after, at, there, Some(error)));
                    assert(to == there);
                }
            },
        }
    }
}

/// If five parsers act alike whether their outputs are asked for or not, so does a tuple of them.
pub proof fn law_sequence_of_five_acts_alike<
    A: Parser,
    B: Parser<Input = A::Input>,
    C: Parser<Input = A::Input>,
    D: Parser<Input = A::Input>,
    E: Parser<Input = A::Input>,
>()
    requires
        parsers::acts_alike::<A>(),
        parsers::acts_alike::<B>(),
        parsers::acts_alike::<C>(),
        parsers::acts_alike::<D>(),
        parsers::acts_alike::<E>(),
    ensures
        parsers::acts_alike::<(A, B, C, D, E)>(),
{
    law_sequence_of_four_acts_alike::<B, C, D, E>();
    assert forall|
        p: (A, B, C, D, E),
        after: (A, B, C, D, E),
        from: StreamState,
        to: StreamState,
        error: Option<ParserError>,
    | #[trigger]
        p.parses(after, from, to, error) implies to.marks == from.marks by {
        law_sequence_of_five(p, after, from, to, error);
    }
    assert forall|
        p: (A, B, C, D, E),
        after: (A, B, C, D, E),
        from: StreamState,
        to: StreamState,
        r: Result<(A::Output, B::Output, C::Output, D::Output, E::Output), ParserError>,
    | #[trigger]
        p.gets(after, from, to, r) implies to.marks == from.marks && p.parses(
        after,
        from,
        to,
        parser::failure(r),
    ) by {
        let rest = (p.1, p.2, p.3, p.4);
        let rest_after = (after.1, after.2, after.3, after.4);
        law_sequence_of_five_gives_all(p, after, from, to, r);
        law_sequence_of_five(p, after, from, to, parser::failure(r));
        match r {
            Ok(output) => {
                let others = (output.1, output.2, output.3, output.4);
                let at = choose|at: StreamState|
                    {
                        &&& #[trigger] p.0.gets(after.0, from, at, Ok(output.0))
                        &&& rest.gets(rest_after, at, to, Ok(others))
                    };
                assert(p.0.parses(after.0, from, at, None));
                assert(rest.parses(rest_after, at, to, None));
            },
            Err(error) => {
                if rest_after == rest && exists|at: StreamState|
                    {
                        &&& #[trigger] p.0.gets(after.0, from, at, Err(error))
                        &&& to == (StreamState { marks: from.marks, ..at })
                    } {
                    let at = choose|at: StreamState|
                        {
                            &&& #[trigger] p.0.gets(after.0, from, at, Err(error))
                            &&& to == (StreamState { marks: from.marks, ..at })
                        };
                    assert(to == at);
                } else {
                    let (at, there, output) = choose|
                        at: StreamState,
                        there: StreamState,
                        output: A::Output,
                    |
                        {
                            &&& #[trigger] p.0.gets(after.0, from, at, Ok(output))
                            &&& #[trigger] rest.gets(rest_after, at, there, Err(error))
                            &&& to == (StreamState { marks: from.marks, ..there })
                        };
                    assert(p.0.parses(after.0, from, at, None));
                    assert(rest.parses(rest_after, at, there, Some(error)));
                    assert(to == there);
                }
            },
        }
    }
}

/// If six parsers act alike whether their outputs are asked for or not, so does a tuple of them.
pub proof fn law_sequence_of_six_acts_alike<
    A: Parser,
    B: Parser<Input = A::Input>,
    C: Parser<Input = A::Input>,
    D: Parser<Input = A::Input>,
    E: Parser<Input = A::Input>,
    F: Parser<Input = A::Input>,
>()
    requires
        parsers::acts_alike::<A>(),
        parsers::acts_alike::<B>(),
        parsers::acts_alike::<C>(),
        parsers::acts_alike::<D>(),
        parsers::acts_alike::<E>(),
        parsers::acts_alike::<F>(),
    ensures
        parsers::acts_alike::<(A, B, C, D, E, F)>(),
{
    law_sequence_of_five_acts_alike::<B, C, D, E, F>();
    assert forall|
        p: (A, B, C, D, E, F),
        after: (A, B, C, D, E, F),
        from: StreamState,
        to: StreamState,
        error: Option<ParserError>,
    | #[trigger]
        p.parses(after, from, to, error) implies to.marks == from.marks by {
        law_sequence_of_six(p, after, from, to, error);
    }
    assert forall|
        p: (A, B, C, D, E, F),
        after: (A, B, C, D, E, F),
        from: StreamState,
        to: StreamState,
        r: Result<(A::Output, B::Output, C::Output, D::Output, E::Output, F::Output), ParserError>,
    | #[trigger]
        p.gets(after, from, to, r) implies to.marks == from.marks && p.parses(
        after,
        from,
        to,
        parser::failure(r),
    ) by {
        let rest = (p.1, p.2, p.3, p.4, p.5);
        let rest_after = (after.1, after.2, after.3, after.4, after.5);
        law_sequence_of_six_gives_all(p, after, from, to, r);
        law_sequence_of_six(p, after, from, to, parser::failure(r));
        match r {
            Ok(output) => {
                let others = (output.1, output.2, output.3, output.4, output.5);
                let at = choose|at: StreamState|
                    {
                        &&& #[trigger] p.0.gets(after.0, from, at, Ok(output.0))
                        &&& rest.gets(rest_after, at, to, Ok(others))
                    };
                assert(p.0.parses(after.0, from, at, None));
                assert(rest.parses(rest_after, at, to, None));
            },
            Err(error) => {
                if rest_after == rest && exists|at: StreamState|
                    {
                        &&& #[trigger] p.0.gets(after.0, from, at, Err(error))
                        &&& to == (StreamState { marks: from.marks, ..at })
                    } {
                    let at = choose|at: StreamState|
                        {
                            &&& #[trigger] p.0.gets(after.0, from, at, Err(error))
                            &&& to == (StreamState { marks: from.marks, ..at })
                        };
                    assert(to == at);
                } else {
                    let (at, there, output) = choose|
                        at: StreamState,
                        there: StreamState,
                        output: A::Output,
                    |
                        {
                            &&& #[trigger] p.0.gets(after.0, from, at, Ok(output))
                            &&& #[trigger] rest.gets(rest_after, at, there, Err(error))
                            &&& to == (StreamState { marks: from.marks, ..there })
                        };
                    assert(p.0.parses(after.0, from, at, None));
                    assert(rest.parses(rest_after, at, there, Some(error)));
                    assert(to == there);
                }
            },
        }
    }
}

/// If seven parsers act alike whether their outputs are asked for or not, so does a tuple of them.
pub proof fn law_sequence_of_seven_acts_alike<
    A: Parser,
    B: Parser<Input = A::Input>,
    C: Parser<Input = A::Input>,
    D: Parser<Input = A::Input>,
    E: Parser<Input = A::Input>,
    F: Parser<Input = A::Input>,
    G: Parser<Input = A::Input>,
>()
    requires
        parsers::acts_alike::<A>(),
        parsers::acts_alike::<B>(),
        parsers::acts_alike::<C>(),
        parsers::acts_alike::<D>(),
        parsers::acts_alike::<E>(),
        parsers::acts_alike::<F>(),
        parsers::acts_alike::<G>(),
    ensures
        parsers::acts_alike::<(A, B, C, D, E, F, G)>(),
{
    law_sequence_of_six_acts_alike::<B, C, D, E, F, G>();
    assert forall|
        p: (A, B, C, D, E, F, G),
        after: (A, B, C, D, E, F, G),
        from: StreamState,
        to: StreamState,
        error: Option<ParserError>,
    | #[trigger]
        p.parses(after, from, to, error) implies to.marks == from.marks by {
        law_sequence_of_seven(p, after, from, to, error);
    }
    assert forall|
        p: (A, B, C, D, E, F, G),
        after: (A, B, C, D, E, F, G),
        from: StreamState,
        to: StreamState,
        r: Result<(
            A::Output,
            B::Output,
            C::Output,
            D::Output,
            E::Output,
            F::Output,
            G::Output,
        ), ParserError>,
    | #[trigger]
        p.gets(after, from, to, r) implies to.marks == from.marks && p.parses(
        after,
        from,
        to,
        parser::failure(r),
    ) by {
        let rest = (p.1, p.2, p.3, p.4, p.5, p.6);
        let rest_after = (after.1, after.2, after.3, after.4, after.5, after.6);
        law_sequence_of_seven_gives_all(p, after, from, to, r);
        law_sequence_of_seven(p, after, from, to, parser::failure(r));
        match r {
            Ok(output) => {
                let others = (output.1, output.2, output.3, output.4, output.5, output.6);
                let at = choose|at: StreamState|
                    {
                        &&& #[trigger] p.0.gets(after.0, from, at, Ok(output.0))
                        &&& rest.gets(rest_after, at, to, Ok(others))
                    };
                assert(p.0.parses(after.0, from, at, None));
                assert(rest.parses(rest_after, at, to, None));
            },
            Err(error) => {
                if rest_after == rest && exists|at: StreamState|
                    {
                        &&& #[trigger] p.0.gets(after.0, from, at, Err(error))
                        &&& to == (StreamState { marks: from.marks, ..at })
                    } {
                    let at = choose|at: StreamState|
                        {
                            &&& #[trigger] p.0.gets(after.0, from, at, Err(error))
                            &&& to == (StreamState { marks: from.marks, ..at })
                        };
                    assert(to == at);
                } else {
                    let (at, there, output) = choose|
                        at: StreamState,
                        there: StreamState,
                        output: A::Output,
                    |
                        {
                            &&& #[trigger] p.0.gets(after.0, from, at, Ok(output))
                            &&& #[trigger] rest.gets(rest_after, at, there, Err(error))
                            &&& to == (StreamState { marks: from.marks, ..there })
                        };
                    assert(p.0.parses(after.0, from, at, None));
                    assert(rest.parses(rest_after, at, there, Some(error)));
                    assert(to == there);
                }
            },
        }
    }
}

/// If eight parsers act alike whether their outputs are asked for or not, so does a tuple of them.
pub proof fn law_sequence_of_eight_acts_alike<
    A: Parser,
    B: Parser<Input = A::Input>,
    C: Parser<Input = A::Input>,
    D: Parser<Input = A::Input>,
    E: Parser<Input = A::Input>,
    F: Parser<Input = A::Input>,
    G: Parser<Input = A::Input>,
    H: Parser<Input = A::Input>,
>()
    requires
        parsers::acts_alike::<A>(),
        parsers::acts_alike::<B>(),
        parsers::acts_alike::<C>(),
        parsers::acts_alike::<D>(),
        parsers::acts_alike::<E>(),
        parsers::acts_alike::<F>(),
        parsers::acts_alike::<G>(),
        parsers::acts_alike::<H>(),
    ensures
        parsers::acts_alike::<(A, B, C, D, E, F, G, H)>(),
{
    law_sequence_of_seven_acts_alike::<B, C, D, E, F, G, H>();
    assert forall|
        p: (A, B, C, D, E, F, G, H),
        after: (A, B, C, D, E, F, G, H),
        from: StreamState,
        to: StreamState,
        error: Option<ParserError>,
    | #[trigger]
        p.parses(after, from, to, error) implies to.marks == from.marks by {
        law_sequence_of_eight(p, after, from, to, error);
    }
    assert forall|
        p: (A, B, C, D, E, F, G, H),
        after: (A, B, C, D, E, F, G, H),
        from: StreamState,
        to: StreamState,
        r: Result<(
            A::Output,
            B::Output,
            C::Output,
            D::Output,
            E::Output,
            F::Output,
            G::Output,
            H::Output,
        ), ParserError>,
    | #[trigger]
        p.gets(after, from, to, r) implies to.marks == from.marks && p.parses(
        after,
        from,
        to,
        parser::failure(r),
    ) by {
        let rest = (p.1, p.2, p.3, p.4, p.5, p.6, p.7);
        let rest_after = (after.1, after.2, after.3, after.4, after.5, after.6, after.7);
        law_sequence_of_eight_gives_all(p, after, from, to, r);
        law_sequence_of_eight(p, after, from, to, parser::failure(r));
        match r {
            Ok(output) => {
                let others = (output.1, output.2, output.3, output.4, output.5, output.6, output.7);
                let at = choose|at: StreamState|
                    {
                        &&& #[trigger] p.0.gets(after.0, from, at, Ok(output.0))
                        &&& rest.gets(rest_after, at, to, Ok(others))
                    };
                assert(p.0.parses(after.0, from, at, None));
                assert(rest.parses(rest_after, at, to, None));
            },
            Err(error) => {
                if rest_after == rest && exists|at: StreamState|
                    {
                        &&& #[trigger] p.0.gets(after.0, from, at, Err(error))
                        &&& to == (StreamState { marks: from.marks, ..at })
                    } {
                    let at = choose|at: StreamState|
                        {
                            &&& #[trigger] p.0.gets(after.0, from, at, Err(error))
                            &&& to == (StreamState { marks: from.marks, ..at })
                        };
                    assert(to == at);
                } else {
                    let (at, there, output) = choose|
                        at: StreamState,
                        there: StreamState,
                        output: A::Output,
                    |
                        {
                            &&& #[trigger] p.0.gets(after.0, from, at, Ok(output))
                            &&& #[trigger] rest.gets(rest_after, at, there, Err(error))
                            &&& to == (StreamState { marks: from.marks, ..there })
                        };
                    assert(p.0.parses(after.0, from, at, None));
                    assert(rest.parses(rest_after, at, there, Some(error)));
                    assert(to == there);
                }
            },
        }
    }
}

/// If nine parsers act alike whether their outputs are asked for or not, so does a tuple of them.
pub proof fn law_sequence_of_nine_acts_alike<
    A: Parser,
    B: Parser<Input = A::Input>,
    C: Parser<Input = A::Input>,
    D: Parser<Input = A::Input>,
    E: Parser<Input = A::Input>,
    F: Parser<Input = A::Input>,
    G: Parser<Input = A::Input>,
    H: Parser<Input = A::Input>,
    I: Parser<Input = A::Input>,
>()
    requires
        parsers::acts_alike::<A>(),
        parsers::acts_alike::<B>(),
        parsers::acts_alike::<C>(),
        parsers::acts_alike::<D>(),
        parsers::acts_alike::<E>(),
        parsers::acts_alike::<F>(),
        parsers::acts_alike::<G>(),
        parsers::acts_alike::<H>(),
        parsers::acts_alike::<I>(),
    ensures
        parsers::acts_alike::<(A, B, C, D, E, F, G, H, I)>(),
{
    law_sequence_of_eight_acts_alike::<B, C, D, E, F, G, H, I>();
    assert forall|
        p: (A, B, C, D, E, F, G, H, I),
        after: (A, B, C, D, E, F, G, H, I),
        from: StreamState,
        to: StreamState,
        error: Option<ParserError>,
    | #[trigger]
        p.parses(after, from, to, error) implies to.marks == from.marks by {
        law_sequence_of_nine(p, after, from, to, error);
    }
    assert forall|
        p: (A, B, C, D, E, F, G, H, I),
        after: (A, B, C, D, E, F, G, H, I),
        from: StreamState,
        to: StreamState,
        r: Result<(
            A::Output,
            B::Output,
            C::Output,
            D::Output,
            E::Output,
            F::Output,
            G::Output,
            H::Output,
            I::Output,
        ), ParserError>,
    | #[trigger]
        p.gets(after, from, to, r) implies to.marks == from.marks && p.parses(
        after,
        from,
        to,
        parser::failure(r),
    ) by {
        let rest = (p.1, p.2, p.3, p.4, p.5, p.6, p.7, p.8);
        let rest_after = (after.1, after.2, after.3, after.4, after.5, after.6, after.7, after.8);
        law_sequence_of_nine_gives_all(p, after, from, to, r);
        law_sequence_of_nine(p, after, from, to, parser::failure(r));
        match r {
            Ok(output) => {
                let others = (
                    output.1,
                    output.2,
                    output.3,
                    output.4,
                    output.5,
                    output.6,
                    output.7,
                    output.8,
                );
                let at = choose|at: StreamState|
                    {
                        &&& #[trigger] p.0.gets(after.0, from, at, Ok(output.0))
                        &&& rest.gets(rest_after, at, to, Ok(others))
                    };
                assert(p.0.parses(after.0, from, at, None));
                assert(rest.parses(rest_after, at, to, None));
            },
            Err(error) => {
                if rest_after == rest && exists|at: StreamState|
                    {
                        &&& #[trigger] p.0.gets(after.0, from, at, Err(error))
                        &&& to == (StreamState { marks: from.marks, ..at })
                    } {
                    let at = choose|at: StreamState|
                        {
                            &&& #[trigger] p.0.gets(after.0, from, at, Err(error))
                            &&& to == (StreamState { marks: from.marks, ..at })
                        };
                    assert(to == at);
                } else {
                    let (at, there, output) = choose|
                        at: StreamState,
                        there: StreamState,
                        output: A::Output,
                    |
                        {
                            &&& #[trigger] p.0.gets(after.0, from, at, Ok(output))
                            &&& #[trigger] rest.gets(rest_after, at, there, Err(error))
                            &&& to == (StreamState { marks: from.marks, ..there })
                        };
                    assert(p.0.parses(after.0, from, at, None));
                    assert(rest.parses(rest_after, at, there, Some(error)));
                    assert(to == there);
                }
            },
        }
    }
}

/// If ten parsers act alike whether their outputs are asked for or not, so does a tuple of them.
pub proof fn law_sequence_of_ten_acts_alike<
    A: Parser,
    B: Parser<Input = A::Input>,
    C: Parser<Input = A::Input>,
    D: Parser<Input = A::Input>,
    E: Parser<Input = A::Input>,
    F: Parser<Input = A::Input>,
    G: Parser<Input = A::Input>,
    H: Parser<Input = A::Input>,
    I: Parser<Input = A::Input>,
    J: Parser<Input = A::Input>,
>()
    requires
        parsers::acts_alike::<A>(),
        parsers::acts_alike::<B>(),
        parsers::acts_alike::<C>(),
        parsers::acts_alike::<D>(),
        parsers::acts_alike::<E>(),
        parsers::acts_alike::<F>(),
        parsers::acts_alike::<G>(),
        parsers::acts_alike::<H>(),
        parsers::acts_alike::<I>(),
        parsers::acts_alike::<J>(),
    ensures
        parsers::acts_alike::<(A, B, C, D, E, F, G, H, I, J)>(),
{
    law_sequence_of_nine_acts_alike::<B, C, D, E, F, G, H, I, J>();
    assert forall|
        p: (A, B, C, D, E, F, G, H, I, J),
        after: (A, B, C, D, E, F, G, H, I, J),
        from: StreamState,
        to: StreamState,
        error: Option<ParserError>,
    | #[trigger]
        p.parses(after, from, to, error) implies to.marks == from.marks by {
        law_sequence_of_ten(p, after, from, to, error);
    }
    assert forall|
        p: (A, B, C, D, E, F, G, H, I, J),
        after: (A, B, C, D, E, F, G, H, I, J),
        from: StreamState,
        to: StreamState,
        r: Result<(
            A::Output,
            B::Output,
            C::Output,
            D::Output,
            E::Output,
            F::Output,
            G::Output,
            H::Output,
            I::Output,
            J::Output,
        ), ParserError>,
    | #[trigger]
        p.gets(after, from, to, r) implies to.marks == from.marks && p.parses(
        after,
        from,
        to,
        parser::failure(r),
    ) by {
        let rest = (p.1, p.2, p.3, p.4, p.5, p.6, p.7, p.8, p.9);
        let rest_after = (
            after.1,
            after.2,
            after.3,
            after.4,
            after.5,
            after.6,
            after.7,
            after.8,
            after.9,
        );
        law_sequence_of_ten_gives_all(p, after, from, to, r);
        law_sequence_of_ten(p, after, from, to, parser::failure(r));
        match r {
            Ok(output) => {
                let others = (
                    output.1,
                    output.2,
                    output.3,
                    output.4,
                    output.5,
                    output.6,
                    output.7,
                    output.8,
                    output.9,
                );
                let at = choose|at: StreamState|
                    {
                        &&& #[trigger] p.0.gets(after.0, from, at, Ok(output.0))
                        &&& rest.gets(rest_after, at, to, Ok(others))
                    };
                assert(p.0.parses(after.0, from, at, None));
                assert(rest.parses(rest_after, at, to, None));
            },
            Err(error) => {
                if rest_after == rest && exists|at: StreamState|
                    {
                        &&& #[trigger] p.0.gets(after.0, from, at, Err(error))
                        &&& to == (StreamState { marks: from.marks, ..at })
                    } {
                    let at = choose|at: StreamState|
                        {
                            &&& #[trigger] p.0.gets(after.0, from, at, Err(error))
                            &&& to == (StreamState { marks: from.marks, ..at })
                        };
                    assert(to == at);
                } else {
                    let (at, there, output) = choose|
                        at: StreamState,
                        there: StreamState,
                        output: A::Output,
                    |
                        {
                            &&& #[trigger] p.0.gets(after.0, from, at, Ok(output))
                            &&& #[trigger] rest.gets(rest_after, at, there, Err(error))
                            &&& to == (StreamState { marks: from.marks, ..there })
                        };
                    assert(p.0.parses(after.0, from, at, None));
                    assert(rest.parses(rest_after, at, there, Some(error)));
                    assert(to == there);
                }
            },
        }
    }
}

/// If eleven parsers act alike whether their outputs are asked for or not, so does a tuple of them.
pub proof fn law_sequence_of_eleven_acts_alike<
    A: Parser,
    B: Parser<Input = A::Input>,
    C: Parser<Input = A::Input>,
    D: Parser<Input = A::Input>,
    E: Parser<Input = A::Input>,
    F: Parser<Input = A::Input>,
    G: Parser<Input = A::Input>,
    H: Parser<Input = A::Input>,
    I: Parser<Input = A::Input>,
    J: Parser<Input = A::Input>,
    K: Parser<Input = A::Input>,
>()
    requires
        parsers::acts_alike::<A>(),
        parsers::acts_alike::<B>(),
        parsers::acts_alike::<C>(),
        parsers::acts_alike::<D>(),
        parsers::acts_alike::<E>(),
        parsers::acts_alike::<F>(),
        parsers::acts_alike::<G>(),
        parsers::acts_alike::<H>(),
        parsers::acts_alike::<I>(),
        parsers::acts_alike::<J>(),
        parsers::acts_alike::<K>(),
    ensures
        parsers::acts_alike::<(A, B, C, D, E, F, G, H, I, J, K)>(),
{
    law_sequence_of_ten_acts_alike::<B, C, D, E, F, G, H, I, J, K>();
    assert forall|
        p: (A, B, C, D, E, F, G, H, I, J, K),
        after: (A, B, C, D, E, F, G, H, I, J, K),
        from: StreamState,
        to: StreamState,
        error: Option<ParserError>,
    | #[trigger]
        p.parses(after, from, to, error) implies to.marks == from.marks by {
        law_sequence_of_eleven(p, after, from, to, error);
    }
    assert forall|
        p: (A, B, C, D, E, F, G, H, I, J, K),
        after: (A, B, C, D, E, F, G, H, I, J, K),
        from: StreamState,
        to: StreamState,
        r: Result<(
            A::Output,
            B::Output,
            C::Output,
            D::Output,
            E::Output,
            F::Output,
            G::Output,
            H::Output,
            I::Output,
            J::Output,
            K::Output,
        ), ParserError>,
    | #[trigger]
        p.gets(after, from, to, r) implies to.marks == from.marks && p.parses(
        after,
        from,
        to,
        parser::failure(r),
    ) by {
        let rest = (p.1, p.2, p.3, p.4, p.5, p.6, p.7, p.8, p.9, p.10);
        let rest_after = (
            after.1,
            after.2,
            after.3,
            after.4,
            after.5,
            after.6,
            after.7,
            after.8,
            after.9,
            after.10,
        );
        law_sequence_of_eleven_gives_all(p, after, from, to, r);
        law_sequence_of_eleven(p, after, from, to, parser::failure(r));
        match r {
            Ok(output) => {
                let others = (
                    output.1,
                    output.2,
                    output.3,
                    output.4,
                    output.5,
                    output.6,
                    output.7,
                    output.8,
                    output.9,
                    output.10,
                );
                let at = choose|at: StreamState|
                    {
                        &&& #[trigger] p.0.gets(after.0, from, at, Ok(output.0))
                        &&& rest.gets(rest_after, at, to, Ok(others))
                    };
                assert(p.0.parses(after.0, from, at, None));
                assert(rest.parses(rest_after, at, to, None));
            },
            Err(error) => {
                if rest_after == rest && exists|at: StreamState|
                    {
                        &&& #[trigger] p.0.gets(after.0, from, at, Err(error))
                        &&& to == (StreamState { marks: from.marks, ..at })
                    } {
                    let at = choose|at: StreamState|
                        {
                            &&& #[trigger] p.0.gets(after.0, from, at, Err(error))
                            &&& to == (StreamState { marks: from.marks, ..at })
                        };
                    assert(to == at);
                } else {
                    let (at, there, output) = choose|
                        at: StreamState,
                        there: StreamState,
                        output: A::Output,
                    |
                        {
                            &&& #[trigger] p.0.gets(after.0, from, at, Ok(output))
                            &&& #[trigger] rest.gets(rest_after, at, there, Err(error))
                            &&& to == (StreamState { marks: from.marks, ..there })
                        };
                    assert(p.0.parses(after.0, from, at, None));
                    assert(rest.parses(rest_after, at, there, Some(error)));
                    assert(to == there);
                }
            },
        }
    }
}

/// If twelve parsers act alike whether their outputs are asked for or not, so does a tuple of them.
pub proof fn law_sequence_of_twelve_acts_alike<
    A: Parser,
    B: Parser<Input = A::Input>,
    C: Parser<Input = A::Input>,
    D: Parser<Input = A::Input>,
    E: Parser<Input = A::Input>,
    F: Parser<Input = A::Input>,
    G: Parser<Input = A::Input>,
    H: Parser<Input = A::Input>,
    I: Parser<Input = A::Input>,
    J: Parser<Input = A::Input>,
    K: Parser<Input = A::Input>,
    L: Parser<Input = A::Input>,
>()
    requires
        parsers::acts_alike::<A>(),
        parsers::acts_alike::<B>(),
        parsers::acts_alike::<C>(),
        parsers::acts_alike::<D>(),
        parsers::acts_alike::<E>(),
        parsers::acts_alike::<F>(),
        parsers::acts_alike::<G>(),
        parsers::acts_alike::<H>(),
        parsers::acts_alike::<I>(),
        parsers::acts_alike::<J>(),
        parsers::acts_alike::<K>(),
        parsers::acts_alike::<L>(),
    ensures
        parsers::acts_alike::<(A, B, C, D, E, F, G, H, I, J, K, L)>(),
{
    law_sequence_of_eleven_acts_alike::<B, C, D, E, F, G, H, I, J, K, L>();
    assert forall|
        p: (A, B, C, D, E, F, G, H, I, J, K, L),
        after: (A, B, C, D, E, F, G, H, I, J, K, L),
        from: StreamState,
        to: StreamState,
        error: Option<ParserError>,
    | #[trigger]
        p.parses(after, from, to, error) implies to.marks == from.marks by {
        law_sequence_of_twelve(p, after, from, to, error);
    }
    assert forall|
        p: (A, B, C, D, E, F, G, H, I, J, K, L),
        after: (A, B, C, D, E, F, G, H, I, J, K, L),
        from: StreamState,
        to: StreamState,
        r: Result<(
            A::Output,
            B::Output,
            C::Output,
            D::Output,
            E::Output,
            F::Output,
            G::Output,
            H::Output,
            I::Output,
            J::Output,
            K::Output,
            L::Output,
        ), ParserError>,
    | #[trigger]
        p.gets(after, from, to, r) implies to.marks == from.marks && p.parses(
        after,
        from,
        to,
        parser::failure(r),
    ) by {
        let rest = (p.1, p.2, p.3, p.4, p.5, p.6, p.7, p.8, p.9, p.10, p.11);
        let rest_after = (
            after.1,
            after.2,
            after.3,
            after.4,
            after.5,
            after.6,
            after.7,
            after.8,
            after.9,
            after.10,
            after.11,
        );
        law_sequence_of_twelve_gives_all(p, after, from, to, r);
        law_sequence_of_twelve(p, after, from, to, parser::failure(r));
        match r {
            Ok(output) => {
                let others = (
                    output.1,
                    output.2,
                    output.3,
                    output.4,
                    output.5,
                    output.6,
                    output.7,
                    output.8,
                    output.9,
                    output.10,
                    output.11,
                );
                let at = choose|at: StreamState|
                    {
                        &&& #[trigger] p.0.gets(after.0, from, at, Ok(output.0))
                        &&& rest.gets(rest_after, at, to, Ok(others))
                    };
                assert(p.0.parses(after.0, from, at, None));
                assert(rest.parses(rest_after, at, to, None));
            },
            Err(error) => {
                if rest_after == rest && exists|at: StreamState|
                    {
                        &&& #[trigger] p.0.gets(after.0, from, at, Err(error))
                        &&& to == (StreamState { marks: from.marks, ..at })
                    } {
                    let at = choose|at: StreamState|
                        {
                            &&& #[trigger] p.0.gets(after.0, from, at, Err(error))
                            &&& to == (StreamState { marks: from.marks, ..at })
                        };
                    assert(to == at);
                } else {
                    let (at, there, output) = choose|
                        at: StreamState,
                        there: StreamState,
                        output: A::Output,
                    |
                        {
                            &&& #[trigger] p.0.gets(after.0, from, at, Ok(output))
                            &&& #[trigger] rest.gets(rest_after, at, there, Err(error))
                            &&& to == (StreamState { marks: from.marks, ..there })
                        };
                    assert(p.0.parses(after.0, from, at, None));
                    assert(rest.parses(rest_after, at, there, Some(error)));
                    assert(to == there);
                }
            },
        }
    }
}

/// If thirteen parsers act alike whether their outputs are asked for or not, so does a tuple of
/// them.
pub proof fn law_sequence_of_thirteen_acts_alike<
    A: Parser,
    B: Parser<Input = A::Input>,
    C: Parser<Input = A::Input>,
    D: Parser<Input = A::Input>,
    E: Parser<Input = A::Input>,
    F: Parser<Input = A::Input>,
    G: Parser<Input = A::Input>,
    H: Parser<Input = A::Input>,
    I: Parser<Input = A::Input>,
    J: Parser<Input = A::Input>,
    K: Parser<Input = A::Input>,
    L: Parser<Input = A::Input>,
    M: Parser<Input = A::Input>,
>()
    requires
        parsers::acts_alike::<A>(),
        parsers::acts_alike::<B>(),
        parsers::acts_alike::<C>(),
        parsers::acts_alike::<D>(),
        parsers::acts_alike::<E>(),
        parsers::acts_alike::<F>(),
        parsers::acts_alike::<G>(),
        parsers::acts_alike::<H>(),
        parsers::acts_alike::<I>(),
        parsers::acts_alike::<J>(),
        parsers::acts_alike::<K>(),
        parsers::acts_alike::<L>(),
        parsers::acts_alike::<M>(),
    ensures
        parsers::acts_alike::<(A, B, C, D, E, F, G, H, I, J, K, L, M)>(),
{
    law_sequence_of_twelve_acts_alike::<B, C, D, E, F, G, H, I, J, K, L, M>();
    assert forall|
        p: (A, B, C, D, E, F, G, H, I, J, K, L, M),
        after: (A, B, C, D, E, F, G, H, I, J, K, L, M),
        from: StreamState,
        to: StreamState,
        error: Option<ParserError>,
    | #[trigger]
        p.parses(after, from, to, error) implies to.marks == from.marks by {
        law_sequence_of_thirteen(p, after, from, to, error);
    }
    assert forall|
        p: (A, B, C, D, E, F, G, H, I, J, K, L, M),
        after: (A, B, C, D, E, F, G, H, I, J, K, L, M),
        from: StreamState,
        to: StreamState,
        r: Result<(
            A::Output,
            B::Output,
            C::Output,
            D::Output,
            E::Output,
            F::Output,
            G::Output,
            H::Output,
            I::Output,
            J::Output,
            K::Output,
            L::Output,
            M::Output,
        ), ParserError>,
    | #[trigger]
        p.gets(after, from, to, r) implies to.marks == from.marks && p.parses(
        after,
        from,
        to,
        parser::failure(r),
    ) by {
        let rest = (p.1, p.2, p.3, p.4, p.5, p.6, p.7, p.8, p.9, p.10, p.11, p.12);
        let rest_after = (
            after.1,
            after.2,
            after.3,
            after.4,
            after.5,
            after.6,
            after.7,
            after.8,
            after.9,
            after.10,
            after.11,
            after.12,
        );
        law_sequence_of_thirteen_gives_all(p, after, from, to, r);
        law_sequence_of_thirteen(p, after, from, to, parser::failure(r));
        match r {
            Ok(output) => {
                let others = (
                    output.1,
                    output.2,
                    output.3,
                    output.4,
                    output.5,
                    output.6,
                    output.7,
                    output.8,
                    output.9,
                    output.10,
                    output.11,
                    output.12,
                );
                let at = choose|at: StreamState|
                    {
                        &&& #[trigger] p.0.gets(after.0, from, at, Ok(output.0))
                        &&& rest.gets(rest_after, at, to, Ok(others))
                    };
                assert(p.0.parses(after.0, from, at, None));
                assert(rest.parses(rest_after, at, to, None));
            },
            Err(error) => {
                if rest_after == rest && exists|at: StreamState|
                    {
                        &&& #[trigger] p.0.gets(after.0, from, at, Err(error))
                        &&& to == (StreamState { marks: from.marks, ..at })
                    } {
                    let at = choose|at: StreamState|
                        {
                            &&& #[trigger] p.0.gets(after.0, from, at, Err(error))
                            &&& to == (StreamState { marks: from.marks, ..at })
                        };
                    assert(to == at);
                } else {
                    let (at, there, output) = choose|
                        at: StreamState,
                        there: StreamState,
                        output: A::Output,
                    |
                        {
                            &&& #[trigger] p.0.gets(after.0, from, at, Ok(output))
                            &&& #[trigger] rest.gets(rest_after, at, there, Err(error))
                            &&& to == (StreamState { marks: from.marks, ..there })
                        };
                    assert(p.0.parses(after.0, from, at, None));
                    assert(rest.parses(rest_after, at, there, Some(error)));
                    assert(to == there);
                }
            },
        }
    }
}

/// If fourteen parsers act alike whether their outputs are asked for or not, so does a tuple of
/// them.
pub proof fn law_sequence_of_fourteen_acts_alike<
    A: Parser,
    B: Parser<Input = A::Input>,
    C: Parser<Input = A::Input>,
    D: Parser<Input = A::Input>,
    E: Parser<Input = A::Input>,
    F: Parser<Input = A::Input>,
    G: Parser<Input = A::Input>,
    H: Parser<Input = A::Input>,
    I: Parser<Input = A::Input>,
    J: Parser<Input = A::Input>,
    K: Parser<Input = A::Input>,
    L: Parser<Input = A::Input>,
    M: Parser<Input = A::Input>,
    N: Parser<Input = A::Input>,
>()
    requires
        parsers::acts_alike::<A>(),
        parsers::acts_alike::<B>(),
        parsers::acts_alike::<C>(),
        parsers::acts_alike::<D>(),
        parsers::acts_alike::<E>(),
        parsers::acts_alike::<F>(),
        parsers::acts_alike::<G>(),
        parsers::acts_alike::<H>(),
        parsers::acts_alike::<I>(),
        parsers::acts_alike::<J>(),
        parsers::acts_alike::<K>(),
        parsers::acts_alike::<L>(),
        parsers::acts_alike::<M>(),
        parsers::acts_alike::<N>(),
    ensures
        parsers::acts_alike::<(A, B, C, D, E, F, G, H, I, J, K, L, M, N)>(),
{
    law_sequence_of_thirteen_acts_alike::<B, C, D, E, F, G, H, I, J, K, L, M, N>();
    assert forall|
        p: (A, B, C, D, E, F, G, H, I, J, K, L, M, N),
        after: (A, B, C, D, E, F, G, H, I, J, K, L, M, N),
        from: StreamState,
        to: StreamState,
        error: Option<ParserError>,
    | #[trigger]
        p.parses(after, from, to, error) implies to.marks == from.marks by {
        law_sequence_of_fourteen(p, after, from, to, error);
    }
    assert forall|
        p: (A, B, C, D, E, F, G, H, I, J, K, L, M, N),
        after: (A, B, C, D, E, F, G, H, I, J, K, L, M, N),
        from: StreamState,
        to: StreamState,
        r: Result<(
            A::Output,
            B::Output,
            C::Output,
            D::Output,
            E::Output,
            F::Output,
            G::Output,
            H::Output,
            I::Output,
            J::Output,
            K::Output,
            L::Output,
            M::Output,
            N::Output,
        ), ParserError>,
    | #[trigger]
        p.gets(after, from, to, r) implies to.marks == from.marks && p.parses(
        after,
        from,
        to,
        parser::failure(r),
    ) by {
        let rest = (p.1, p.2, p.3, p.4, p.5, p.6, p.7, p.8, p.9, p.10, p.11, p.12, p.13);
        let rest_after = (
            after.1,
            after.2,
            after.3,
            after.4,
            after.5,
            after.6,
            after.7,
            after.8,
            after.9,
            after.10,
            after.11,
            after.12,
            after.13,
        );
        law_sequence_of_fourteen_gives_all(p, after, from, to, r);
        law_sequence_of_fourteen(p, after, from, to, parser::failure(r));
        match r {
            Ok(output) => {
                let others = (
                    output.1,
                    output.2,
                    output.3,
                    output.4,
                    output.5,
                    output.6,
                    output.7,
                    output.8,
                    output.9,
                    output.10,
                    output.11,
                    output.12,
                    output.13,
                );
                let at = choose|at: StreamState|
                    {
                        &&& #[trigger] p.0.gets(after.0, from, at, Ok(output.0))
                        &&& rest.gets(rest_after, at, to, Ok(others))
                    };
                assert(p.0.parses(after.0, from, at, None));
                assert(rest.parses(rest_after, at, to, None));
            },
            Err(error) => {
                if rest_after == rest && exists|at: StreamState|
                    {
                        &&& #[trigger] p.0.gets(after.0, from, at, Err(error))
                        &&& to == (StreamState { marks: from.marks, ..at })
                    } {
                    let at = choose|at: StreamState|
                        {
                            &&& #[trigger] p.0.gets(after.0, from, at, Err(error))
                            &&& to == (StreamState { marks: from.marks, ..at })
                        };
                    assert(to == at);
                } else {
                    let (at, there, output) = choose|
                        at: StreamState,
                        there: StreamState,
                        output: A::Output,
                    |
                        {
                            &&& #[trigger] p.0.gets(after.0, from, at, Ok(output))
                            &&& #[trigger] rest.gets(rest_after, at, there, Err(error))
                            &&& to == (StreamState { marks: from.marks, ..there })
                        };
                    assert(p.0.parses(after.0, from, at, None));
                    assert(rest.parses(rest_after, at, there, Some(error)));
                    assert(to == there);
                }
            },
        }
    }
}

} // verus!
