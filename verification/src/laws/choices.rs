//! What holds of choices between parsers, of any number.
use crate::choice;
use crate::choice::{Choice, ChoiceParser};
use crate::errors::ParserError;
use crate::laws::parsers;
use crate::parser;
use crate::parser::Parser;
use crate::recover;
use crate::streamer::StreamState;
use vstd::prelude::*;

verus! {

/// Whether `parse` may fail with `error` because the input does not match, and leave the stream
/// where it is.
pub open spec fn left_by<P: Parser>(
    parser: P,
    after: P,
    from: StreamState,
    to: StreamState,
    error: ParserError,
) -> bool {
    &&& parser.parses(after, from, to, Some(error))
    &&& error.mismatch()
    &&& to.pos == from.pos
}

/// Whether `get` may fail with `error` because the input does not match, and leave the stream where
/// it is.
pub open spec fn get_left_by<P: Parser>(
    parser: P,
    after: P,
    from: StreamState,
    to: StreamState,
    error: ParserError,
) -> bool {
    &&& parser.gets(after, from, to, Err(error))
    &&& error.mismatch()
    &&& to.pos == from.pos
}

/// Whether an outcome says that the input does not match.
pub open spec fn is_left(error: Option<ParserError>) -> bool {
    error matches Some(e) && e.mismatch()
}

/// What a choice does is what its alternatives do together, and its output holds what theirs hold.
pub proof fn law_choice_is_between_its_alternatives<C: ChoiceParser>(
    parser: Choice<C>,
    after: Choice<C>,
    from: StreamState,
    to: StreamState,
    error: Option<ParserError>,
    r: Result<C::Output, ParserError>,
    output: C::Output,
)
    ensures
        parser.ready(from) <==> parser.alternatives().choice_ready(from),
        parser.parses(after, from, to, error) <==> parser.alternatives().choice_parses(
            after.alternatives(),
            from,
            to,
            error,
        ),
        parser.gets(after, from, to, r) <==> parser.alternatives().choice_gets(
            after.alternatives(),
            from,
            to,
            r,
        ),
        Choice::<C>::held(output) == C::choice_held(output),
{
}

/// A single alternative is applied, and does what it does by itself, but that a mismatch leaves the
/// stream where it is.
pub proof fn law_single_alternative_is_applied<A: Parser>(
    parser: (A,),
    after: (A,),
    from: StreamState,
    to: StreamState,
    error: Option<ParserError>,
    r: Result<A::Output, ParserError>,
    output: A::Output,
)
    ensures
        parser.choice_ready(from) <==> parser.0.ready(from) && recover::stays(parser.0, from),
        parser.choice_parses(after, from, to, error) <==> {
            &&& parser.0.parses(after.0, from, to, error)
            &&& is_left(error) ==> to.pos == from.pos
        },
        parser.choice_gets(after, from, to, r) <==> {
            &&& parser.0.gets(after.0, from, to, r)
            &&& is_left(parser::failure(r)) ==> to.pos == from.pos
        },
        <(A,)>::choice_held(output) == A::held(output),
{
    let at = seq![from, to];
    if is_left(error) ==> to.pos == from.pos {
        assert(choice::decides(at, 0, 1, from, to, error));
    }
    if is_left(parser::failure(r)) ==> to.pos == from.pos {
        assert(choice::decides(at, 0, 1, from, to, parser::failure(r)));
    }
}

/// Of two alternatives, the first one is applied, and the others only if the input does not match
/// it: these do then what a choice between them does.
pub proof fn law_choice_between_two<
    A: Parser,
    B: Parser<Input = A::Input, Output = A::Output>,
>(
    parser: (A, B),
    after: (A, B),
    from: StreamState,
    to: StreamState,
    error: Option<ParserError>,
)
    ensures
        parser.choice_parses(after, from, to, error) <==> {
            let rest = (parser.1,);
            let rest_after = (after.1,);
            ||| !is_left(error) && parser.0.parses(after.0, from, to, error) && rest_after == rest
            ||| exists|at: StreamState, e: ParserError|
                {
                    &&& #[trigger] left_by(parser.0, after.0, from, at, e)
                    &&& rest.choice_parses(rest_after, at, to, error)
                }
        },
{
    let rest = (parser.1,);
    let rest_after = (after.1,);
    if parser.choice_parses(after, from, to, error) {
        let (at, last) = choose|at: Seq<StreamState>, last: int|
            {
                &&& #[trigger] choice::decides(at, last, 2, from, to, error)
                &&& choice::tried(parser.0, after.0, at[0], at[1], 0, last, error)
                &&& choice::tried(parser.1, after.1, at[1], at[2], 1, last, error)
            };
        if last > 0 {
            let e = choose|e: ParserError| #[trigger]
                parser.0.parses(after.0, at[0], at[1], Some(e)) && e.mismatch();
            assert(left_by(parser.0, after.0, from, at[1], e));
            assert(choice::decides(at.skip(1), last - 1, 1, at[1], to, error));
            assert(rest.choice_parses(rest_after, at[1], to, error));
        }
    }
    if !is_left(error) && parser.0.parses(after.0, from, to, error) && rest_after == rest {
        assert(choice::decides(seq![from, to], 0, 2, from, to, error));
    }
    assert forall|next: StreamState, e: ParserError|
        {
            &&& #[trigger] left_by(parser.0, after.0, from, next, e)
            &&& rest.choice_parses(rest_after, next, to, error)
        } implies parser.choice_parses(after, from, to, error) by {
        let (tail, last) = choose|tail: Seq<StreamState>, last: int|
            {
                &&& #[trigger] choice::decides(tail, last, 1, next, to, error)
                &&& choice::tried(parser.1, after.1, tail[0], tail[1], 0, last, error)
            };
        assert(recover::mismatches(parser.0, after.0, from, next));
        assert(choice::decides(seq![from] + tail, last + 1, 2, from, to, error));
    }
}

/// The output of two alternatives is that of the first one, or of a choice between the others if
/// the input does not match the first one.
pub proof fn law_choice_between_two_gives_first<
    A: Parser,
    B: Parser<Input = A::Input, Output = A::Output>,
>(
    parser: (A, B),
    after: (A, B),
    from: StreamState,
    to: StreamState,
    r: Result<A::Output, ParserError>,
    output: A::Output,
)
    ensures
        parser.choice_gets(after, from, to, r) <==> {
            let rest = (parser.1,);
            let rest_after = (after.1,);
            ||| {
                &&& !is_left(parser::failure(r))
                &&& parser.0.gets(after.0, from, to, r)
                &&& rest_after == rest
            }
            ||| exists|at: StreamState, e: ParserError|
                {
                    &&& #[trigger] get_left_by(parser.0, after.0, from, at, e)
                    &&& rest.choice_gets(rest_after, at, to, r)
                }
        },
        <(A, B)>::choice_held(output) == A::held(output),
{
    let rest = (parser.1,);
    let rest_after = (after.1,);
    let error = parser::failure(r);
    if parser.choice_gets(after, from, to, r) {
        let (at, last) = choose|at: Seq<StreamState>, last: int|
            {
                &&& #[trigger] choice::decides(at, last, 2, from, to, error)
                &&& choice::get_tried(parser.0, after.0, at[0], at[1], 0, last, r)
                &&& choice::get_tried(parser.1, after.1, at[1], at[2], 1, last, r)
            };
        if last > 0 {
            let e = choose|e: ParserError| #[trigger]
                parser.0.gets(after.0, at[0], at[1], Err(e)) && e.mismatch();
            assert(get_left_by(parser.0, after.0, from, at[1], e));
            assert(choice::decides(at.skip(1), last - 1, 1, at[1], to, error));
            assert(rest.choice_gets(rest_after, at[1], to, r));
        }
    }
    if !is_left(error) && parser.0.gets(after.0, from, to, r) && rest_after == rest {
        assert(choice::decides(seq![from, to], 0, 2, from, to, error));
    }
    assert forall|next: StreamState, e: ParserError|
        {
            &&& #[trigger] get_left_by(parser.0, after.0, from, next, e)
            &&& rest.choice_gets(rest_after, next, to, r)
        } implies parser.choice_gets(after, from, to, r) by {
        let (tail, last) = choose|tail: Seq<StreamState>, last: int|
            {
                &&& #[trigger] choice::decides(tail, last, 1, next, to, error)
                &&& choice::get_tried(parser.1, after.1, tail[0], tail[1], 0, last, r)
            };
        assert(recover::get_mismatches(parser.0, after.0, from, next));
        assert(choice::decides(seq![from] + tail, last + 1, 2, from, to, error));
    }
}

/// A choice between two alternatives can be made where the first one can be applied and leaves the
/// stream where it is if the input does not match it, and a choice between the others can be made
/// from there on.
pub proof fn law_choice_between_two_is_ready<
    A: Parser,
    B: Parser<Input = A::Input, Output = A::Output>,
>(
    parser: (A, B),
    from: StreamState,
)
    requires
        parser.0.ready(from),
        recover::stays(parser.0, from),
        forall|output: A::Output| #[trigger] B::held(output) == A::held(output),
        ({
            let rest = (parser.1,);
            &&& forall|after: A, at: StreamState, e: ParserError| #[trigger]
                left_by(parser.0, after, from, at, e) ==> rest.choice_ready(at)
            &&& forall|after: A, at: StreamState, e: ParserError| #[trigger]
                get_left_by(parser.0, after, from, at, e) ==> rest.choice_ready(at)
        }),
    ensures
        parser.choice_ready(from),
{
    let rest = (parser.1,);
    assert forall|after: A, at: StreamState| #[trigger]
        recover::mismatches(parser.0, after, from, at) implies rest.choice_ready(at) by {
        let e = choose|e: ParserError| #[trigger]
            parser.0.parses(after, from, at, Some(e)) && e.mismatch();
        assert(left_by(parser.0, after, from, at, e));
    }
    assert forall|after: A, at: StreamState| #[trigger]
        recover::get_mismatches(parser.0, after, from, at) implies rest.choice_ready(at) by {
        let e = choose|e: ParserError| #[trigger]
            parser.0.gets(after, from, at, Err(e)) && e.mismatch();
        assert(get_left_by(parser.0, after, from, at, e));
    }
}

/// Of three alternatives, the first one is applied, and the others only if the input does not match
/// it: these do then what a choice between them does.
pub proof fn law_choice_between_three<
    A: Parser,
    B: Parser<Input = A::Input, Output = A::Output>,
    C: Parser<Input = A::Input, Output = A::Output>,
>(
    parser: (A, B, C),
    after: (A, B, C),
    from: StreamState,
    to: StreamState,
    error: Option<ParserError>,
)
    ensures
        parser.choice_parses(after, from, to, error) <==> {
            let rest = (parser.1, parser.2);
            let rest_after = (after.1, after.2);
            ||| !is_left(error) && parser.0.parses(after.0, from, to, error) && rest_after == rest
            ||| exists|at: StreamState, e: ParserError|
                {
                    &&& #[trigger] left_by(parser.0, after.0, from, at, e)
                    &&& rest.choice_parses(rest_after, at, to, error)
                }
        },
{
    let rest = (parser.1, parser.2);
    let rest_after = (after.1, after.2);
    if parser.choice_parses(after, from, to, error) {
        let (at, last) = choose|at: Seq<StreamState>, last: int|
            {
                &&& #[trigger] choice::decides(at, last, 3, from, to, error)
                &&& choice::tried(parser.0, after.0, at[0], at[1], 0, last, error)
                &&& choice::tried(parser.1, after.1, at[1], at[2], 1, last, error)
                &&& choice::tried(parser.2, after.2, at[2], at[3], 2, last, error)
            };
        if last > 0 {
            let e = choose|e: ParserError| #[trigger]
                parser.0.parses(after.0, at[0], at[1], Some(e)) && e.mismatch();
            assert(left_by(parser.0, after.0, from, at[1], e));
            assert(choice::decides(at.skip(1), last - 1, 2, at[1], to, error));
            assert(rest.choice_parses(rest_after, at[1], to, error));
        }
    }
    if !is_left(error) && parser.0.parses(after.0, from, to, error) && rest_after == rest {
        assert(choice::decides(seq![from, to], 0, 3, from, to, error));
    }
    assert forall|next: StreamState, e: ParserError|
        {
            &&& #[trigger] left_by(parser.0, after.0, from, next, e)
            &&& rest.choice_parses(rest_after, next, to, error)
        } implies parser.choice_parses(after, from, to, error) by {
        let (tail, last) = choose|tail: Seq<StreamState>, last: int|
            {
                &&& #[trigger] choice::decides(tail, last, 2, next, to, error)
                &&& choice::tried(parser.1, after.1, tail[0], tail[1], 0, last, error)
                &&& choice::tried(parser.2, after.2, tail[1], tail[2], 1, last, error)
            };
        assert(recover::mismatches(parser.0, after.0, from, next));
        assert(choice::decides(seq![from] + tail, last + 1, 3, from, to, error));
    }
}

/// The output of three alternatives is that of the first one, or of a choice between the others if
/// the input does not match the first one.
pub proof fn law_choice_between_three_gives_first<
    A: Parser,
    B: Parser<Input = A::Input, Output = A::Output>,
    C: Parser<Input = A::Input, Output = A::Output>,
>(
    parser: (A, B, C),
    after: (A, B, C),
    from: StreamState,
    to: StreamState,
    r: Result<A::Output, ParserError>,
    output: A::Output,
)
    ensures
        parser.choice_gets(after, from, to, r) <==> {
            let rest = (parser.1, parser.2);
            let rest_after = (after.1, after.2);
            ||| {
                &&& !is_left(parser::failure(r))
                &&& parser.0.gets(after.0, from, to, r)
                &&& rest_after == rest
            }
            ||| exists|at: StreamState, e: ParserError|
                {
                    &&& #[trigger] get_left_by(parser.0, after.0, from, at, e)
                    &&& rest.choice_gets(rest_after, at, to, r)
                }
        },
        <(A, B, C)>::choice_held(output) == A::held(output),
{
    let rest = (parser.1, parser.2);
    let rest_after = (after.1, after.2);
    let error = parser::failure(r);
    if parser.choice_gets(after, from, to, r) {
        let (at, last) = choose|at: Seq<StreamState>, last: int|
            {
                &&& #[trigger] choice::decides(at, last, 3, from, to, error)
                &&& choice::get_tried(parser.0, after.0, at[0], at[1], 0, last, r)
                &&& choice::get_tried(parser.1, after.1, at[1], at[2], 1, last, r)
                &&& choice::get_tried(parser.2, after.2, at[2], at[3], 2, last, r)
            };
        if last > 0 {
            let e = choose|e: ParserError| #[trigger]
                parser.0.gets(after.0, at[0], at[1], Err(e)) && e.mismatch();
            assert(get_left_by(parser.0, after.0, from, at[1], e));
            assert(choice::decides(at.skip(1), last - 1, 2, at[1], to, error));
            assert(rest.choice_gets(rest_after, at[1], to, r));
        }
    }
    if !is_left(error) && parser.0.gets(after.0, from, to, r) && rest_after == rest {
        assert(choice::decides(seq![from, to], 0, 3, from, to, error));
    }
    assert forall|next: StreamState, e: ParserError|
        {
            &&& #[trigger] get_left_by(parser.0, after.0, from, next, e)
            &&& rest.choice_gets(rest_after, next, to, r)
        } implies parser.choice_gets(after, from, to, r) by {
        let (tail, last) = choose|tail: Seq<StreamState>, last: int|
            {
                &&& #[trigger] choice::decides(tail, last, 2, next, to, error)
                &&& choice::get_tried(parser.1, after.1, tail[0], tail[1], 0, last, r)
                &&& choice::get_tried(parser.2, after.2, tail[1], tail[2], 1, last, r)
            };
        assert(recover::get_mismatches(parser.0, after.0, from, next));
        assert(choice::decides(seq![from] + tail, last + 1, 3, from, to, error));
    }
}

/// A choice between three alternatives can be made where the first one can be applied and leaves
/// the stream where it is if the input does not match it, and a choice between the others can be
/// made from there on.
pub proof fn law_choice_between_three_is_ready<
    A: Parser,
    B: Parser<Input = A::Input, Output = A::Output>,
    C: Parser<Input = A::Input, Output = A::Output>,
>(
    parser: (A, B, C),
    from: StreamState,
)
    requires
        parser.0.ready(from),
        recover::stays(parser.0, from),
        forall|output: A::Output| #[trigger] B::held(output) == A::held(output),
        ({
            let rest = (parser.1, parser.2);
            &&& forall|after: A, at: StreamState, e: ParserError| #[trigger]
                left_by(parser.0, after, from, at, e) ==> rest.choice_ready(at)
            &&& forall|after: A, at: StreamState, e: ParserError| #[trigger]
                get_left_by(parser.0, after, from, at, e) ==> rest.choice_ready(at)
        }),
    ensures
        parser.choice_ready(from),
{
    let rest = (parser.1, parser.2);
    assert forall|after: A, at: StreamState| #[trigger]
        recover::mismatches(parser.0, after, from, at) implies rest.choice_ready(at) by {
        let e = choose|e: ParserError| #[trigger]
            parser.0.parses(after, from, at, Some(e)) && e.mismatch();
        assert(left_by(parser.0, after, from, at, e));
    }
    assert forall|after: A, at: StreamState| #[trigger]
        recover::get_mismatches(parser.0, after, from, at) implies rest.choice_ready(at) by {
        let e = choose|e: ParserError| #[trigger]
            parser.0.gets(after, from, at, Err(e)) && e.mismatch();
        assert(get_left_by(parser.0, after, from, at, e));
    }
}

/// Of four alternatives, the first one is applied, and the others only if the input does not match
/// it: these do then what a choice between them does.
pub proof fn law_choice_between_four<
    A: Parser,
    B: Parser<Input = A::Input, Output = A::Output>,
    C: Parser<Input = A::Input, Output = A::Output>,
    D: Parser<Input = A::Input, Output = A::Output>,
>(
    parser: (A, B, C, D),
    after: (A, B, C, D),
    from: StreamState,
    to: StreamState,
    error: Option<ParserError>,
)
    ensures
        parser.choice_parses(after, from, to, error) <==> {
            let rest = (parser.1, parser.2, parser.3);
            let rest_after = (after.1, after.2, after.3);
            ||| !is_left(error) && parser.0.parses(after.0, from, to, error) && rest_after == rest
            ||| exists|at: StreamState, e: ParserError|
                {
                    &&& #[trigger] left_by(parser.0, after.0, from, at, e)
                    &&& rest.choice_parses(rest_after, at, to, error)
                }
        },
{
    let rest = (parser.1, parser.2, parser.3);
    let rest_after = (after.1, after.2, after.3);
    if parser.choice_parses(after, from, to, error) {
        let (at, last) = choose|at: Seq<StreamState>, last: int|
            {
                &&& #[trigger] choice::decides(at, last, 4, from, to, error)
                &&& choice::tried(parser.0, after.0, at[0], at[1], 0, last, error)
                &&& choice::tried(parser.1, after.1, at[1], at[2], 1, last, error)
                &&& choice::tried(parser.2, after.2, at[2], at[3], 2, last, error)
                &&& choice::tried(parser.3, after.3, at[3], at[4], 3, last, error)
            };
        if last > 0 {
            let e = choose|e: ParserError| #[trigger]
                parser.0.parses(after.0, at[0], at[1], Some(e)) && e.mismatch();
            assert(left_by(parser.0, after.0, from, at[1], e));
            assert(choice::decides(at.skip(1), last - 1, 3, at[1], to, error));
            assert(rest.choice_parses(rest_after, at[1], to, error));
        }
    }
    if !is_left(error) && parser.0.parses(after.0, from, to, error) && rest_after == rest {
        assert(choice::decides(seq![from, to], 0, 4, from, to, error));
    }
    assert forall|next: StreamState, e: ParserError|
        {
            &&& #[trigger] left_by(parser.0, after.0, from, next, e)
            &&& rest.choice_parses(rest_after, next, to, error)
        } implies parser.choice_parses(after, from, to, error) by {
        let (tail, last) = choose|tail: Seq<StreamState>, last: int|
            {
                &&& #[trigger] choice::decides(tail, last, 3, next, to, error)
                &&& choice::tried(parser.1, after.1, tail[0], tail[1], 0, last, error)
                &&& choice::tried(parser.2, after.2, tail[1], tail[2], 1, last, error)
                &&& choice::tried(parser.3, after.3, tail[2], tail[3], 2, last, error)
            };
        assert(recover::mismatches(parser.0, after.0, from, next));
        assert(choice::decides(seq![from] + tail, last + 1, 4, from, to, error));
    }
}

/// The output of four alternatives is that of the first one, or of a choice between the others if
/// the input does not match the first one.
pub proof fn law_choice_between_four_gives_first<
    A: Parser,
    B: Parser<Input = A::Input, Output = A::Output>,
    C: Parser<Input = A::Input, Output = A::Output>,
    D: Parser<Input = A::Input, Output = A::Output>,
>(
    parser: (A, B, C, D),
    after: (A, B, C, D),
    from: StreamState,
    to: StreamState,
    r: Result<A::Output, ParserError>,
    output: A::Output,
)
    ensures
        parser.choice_gets(after, from, to, r) <==> {
            let rest = (parser.1, parser.2, parser.3);
            let rest_after = (after.1, after.2, after.3);
            ||| {
                &&& !is_left(parser::failure(r))
                &&& parser.0.gets(after.0, from, to, r)
                &&& rest_after == rest
            }
            ||| exists|at: StreamState, e: ParserError|
                {
                    &&& #[trigger] get_left_by(parser.0, after.0, from, at, e)
                    &&& rest.choice_gets(rest_after, at, to, r)
                }
        },
        <(A, B, C, D)>::choice_held(output) == A::held(output),
{
    let rest = (parser.1, parser.2, parser.3);
    let rest_after = (after.1, after.2, after.3);
    let error = parser::failure(r);
    if parser.choice_gets(after, from, to, r) {
        let (at, last) = choose|at: Seq<StreamState>, last: int|
            {
                &&& #[trigger] choice::decides(at, last, 4, from, to, error)
                &&& choice::get_tried(parser.0, after.0, at[0], at[1], 0, last, r)
                &&& choice::get_tried(parser.1, after.1, at[1], at[2], 1, last, r)
                &&& choice::get_tried(parser.2, after.2, at[2], at[3], 2, last, r)
                &&& choice::get_tried(parser.3, after.3, at[3], at[4], 3, last, r)
            };
        if last > 0 {
            let e = choose|e: ParserError| #[trigger]
                parser.0.gets(after.0, at[0], at[1], Err(e)) && e.mismatch();
            assert(get_left_by(parser.0, after.0, from, at[1], e));
            assert(choice::decides(at.skip(1), last - 1, 3, at[1], to, error));
            assert(rest.choice_gets(rest_after, at[1], to, r));
        }
    }
    if !is_left(error) && parser.0.gets(after.0, from, to, r) && rest_after == rest {
        assert(choice::decides(seq![from, to], 0, 4, from, to, error));
    }
    assert forall|next: StreamState, e: ParserError|
        {
            &&& #[trigger] get_left_by(parser.0, after.0, from, next, e)
            &&& rest.choice_gets(rest_after, next, to, r)
        } implies parser.choice_gets(after, from, to, r) by {
        let (tail, last) = choose|tail: Seq<StreamState>, last: int|
            {
                &&& #[trigger] choice::decides(tail, last, 3, next, to, error)
                &&& choice::get_tried(parser.1, after.1, tail[0], tail[1], 0, last, r)
                &&& choice::get_tried(parser.2, after.2, tail[1], tail[2], 1, last, r)
                &&& choice::get_tried(parser.3, after.3, tail[2], tail[3], 2, last, r)
            };
        assert(recover::get_mismatches(parser.0, after.0, from, next));
        assert(choice::decides(seq![from] + tail, last + 1, 4, from, to, error));
    }
}

/// A choice between four alternatives can be made where the first one can be applied and leaves the
/// stream where it is if the input does not match it, and a choice between the others can be made
/// from there on.
pub proof fn law_choice_between_four_is_ready<
    A: Parser,
    B: Parser<Input = A::Input, Output = A::Output>,
    C: Parser<Input = A::Input, Output = A::Output>,
    D: Parser<Input = A::Input, Output = A::Output>,
>(
    parser: (A, B, C, D),
    from: StreamState,
)
    requires
        parser.0.ready(from),
        recover::stays(parser.0, from),
        forall|output: A::Output| #[trigger] B::held(output) == A::held(output),
        ({
            let rest = (parser.1, parser.2, parser.3);
            &&& forall|after: A, at: StreamState, e: ParserError| #[trigger]
                left_by(parser.0, after, from, at, e) ==> rest.choice_ready(at)
            &&& forall|after: A, at: StreamState, e: ParserError| #[trigger]
                get_left_by(parser.0, after, from, at, e) ==> rest.choice_ready(at)
        }),
    ensures
        parser.choice_ready(from),
{
    let rest = (parser.1, parser.2, parser.3);
    assert forall|after: A, at: StreamState| #[trigger]
        recover::mismatches(parser.0, after, from, at) implies rest.choice_ready(at) by {
        let e = choose|e: ParserError| #[trigger]
            parser.0.parses(after, from, at, Some(e)) && e.mismatch();
        assert(left_by(parser.0, after, from, at, e));
    }
    assert forall|after: A, at: StreamState| #[trigger]
        recover::get_mismatches(parser.0, after, from, at) implies rest.choice_ready(at) by {
        let e = choose|e: ParserError| #[trigger]
            parser.0.gets(after, from, at, Err(e)) && e.mismatch();
        assert(get_left_by(parser.0, after, from, at, e));
    }
}

/// Of five alternatives, the first one is applied, and the others only if the input does not match
/// it: these do then what a choice between them does.
pub proof fn law_choice_between_five<
    A: Parser,
    B: Parser<Input = A::Input, Output = A::Output>,
    C: Parser<Input = A::Input, Output = A::Output>,
    D: Parser<Input = A::Input, Output = A::Output>,
    E: Parser<Input = A::Input, Output = A::Output>,
>(
    parser: (A, B, C, D, E),
    after: (A, B, C, D, E),
    from: StreamState,
    to: StreamState,
    error: Option<ParserError>,
)
    ensures
        parser.choice_parses(after, from, to, error) <==> {
            let rest = (parser.1, parser.2, parser.3, parser.4);
            let rest_after = (after.1, after.2, after.3, after.4);
            ||| !is_left(error) && parser.0.parses(after.0, from, to, error) && rest_after == rest
            ||| exists|at: StreamState, e: ParserError|
                {
                    &&& #[trigger] left_by(parser.0, after.0, from, at, e)
                    &&& rest.choice_parses(rest_after, at, to, error)
                }
        },
{
    let rest = (parser.1, parser.2, parser.3, parser.4);
    let rest_after = (after.1, after.2, after.3, after.4);
    if parser.choice_parses(after, from, to, error) {
        let (at, last) = choose|at: Seq<StreamState>, last: int|
            {
                &&& #[trigger] choice::decides(at, last, 5, from, to, error)
                &&& choice::tried(parser.0, after.0, at[0], at[1], 0, last, error)
                &&& choice::tried(parser.1, after.1, at[1], at[2], 1, last, error)
                &&& choice::tried(parser.2, after.2, at[2], at[3], 2, last, error)
                &&& choice::tried(parser.3, after.3, at[3], at[4], 3, last, error)
                &&& choice::tried(parser.4, after.4, at[4], at[5], 4, last, error)
            };
        if last > 0 {
            let e = choose|e: ParserError| #[trigger]
                parser.0.parses(after.0, at[0], at[1], Some(e)) && e.mismatch();
            assert(left_by(parser.0, after.0, from, at[1], e));
            assert(choice::decides(at.skip(1), last - 1, 4, at[1], to, error));
            assert(rest.choice_parses(rest_after, at[1], to, error));
        }
    }
    if !is_left(error) && parser.0.parses(after.0, from, to, error) && rest_after == rest {
        assert(choice::decides(seq![from, to], 0, 5, from, to, error));
    }
    assert forall|next: StreamState, e: ParserError|
        {
            &&& #[trigger] left_by(parser.0, after.0, from, next, e)
            &&& rest.choice_parses(rest_after, next, to, error)
        } implies parser.choice_parses(after, from, to, error) by {
        let (tail, last) = choose|tail: Seq<StreamState>, last: int|
            {
                &&& #[trigger] choice::decides(tail, last, 4, next, to, error)
                &&& choice::tried(parser.1, after.1, tail[0], tail[1], 0, last, error)
                &&& choice::tried(parser.2, after.2, tail[1], tail[2], 1, last, error)
                &&& choice::tried(parser.3, after.3, tail[2], tail[3], 2, last, error)
                &&& choice::tried(parser.4, after.4, tail[3], tail[4], 3, last, error)
            };
        assert(recover::mismatches(parser.0, after.0, from, next));
        assert(choice::decides(seq![from] + tail, last + 1, 5, from, to, error));
    }
}

/// The output of five alternatives is that of the first one, or of a choice between the others if
/// the input does not match the first one.
pub proof fn law_choice_between_five_gives_first<
    A: Parser,
    B: Parser<Input = A::Input, Output = A::Output>,
    C: Parser<Input = A::Input, Output = A::Output>,
    D: Parser<Input = A::Input, Output = A::Output>,
    E: Parser<Input = A::Input, Output = A::Output>,
>(
    parser: (A, B, C, D, E),
    after: (A, B, C, D, E),
    from: StreamState,
    to: StreamState,
    r: Result<A::Output, ParserError>,
    output: A::Output,
)
    ensures
        parser.choice_gets(after, from, to, r) <==> {
            let rest = (parser.1, parser.2, parser.3, parser.4);
            let rest_after = (after.1, after.2, after.3, after.4);
            ||| {
                &&& !is_left(parser::failure(r))
                &&& parser.0.gets(after.0, from, to, r)
                &&& rest_after == rest
            }
            ||| exists|at: StreamState, e: ParserError|
                {
                    &&& #[trigger] get_left_by(parser.0, after.0, from, at, e)
                    &&& rest.choice_gets(rest_after, at, to, r)
                }
        },
        <(A, B, C, D, E)>::choice_held(output) == A::held(output),
{
    let rest = (parser.1, parser.2, parser.3, parser.4);
    let rest_after = (after.1, after.2, after.3, after.4);
    let error = parser::failure(r);
    if parser.choice_gets(after, from, to, r) {
        let (at, last) = choose|at: Seq<StreamState>, last: int|
            {
                &&& #[trigger] choice::decides(at, last, 5, from, to, error)
                &&& choice::get_tried(parser.0, after.0, at[0], at[1], 0, last, r)
                &&& choice::get_tried(parser.1, after.1, at[1], at[2], 1, last, r)
                &&& choice::get_tried(parser.2, after.2, at[2], at[3], 2, last, r)
                &&& choice::get_tried(parser.3, after.3, at[3], at[4], 3, last, r)
                &&& choice::get_tried(parser.4, after.4, at[4], at[5], 4, last, r)
            };
        if last > 0 {
            let e = choose|e: ParserError| #[trigger]
                parser.0.gets(after.0, at[0], at[1], Err(e)) && e.mismatch();
            assert(get_left_by(parser.0, after.0, from, at[1], e));
            assert(choice::decides(at.skip(1), last - 1, 4, at[1], to, error));
            assert(rest.choice_gets(rest_after, at[1], to, r));
        }
    }
    if !is_left(error) && parser.0.gets(after.0, from, to, r) && rest_after == rest {
        assert(choice::decides(seq![from, to], 0, 5, from, to, error));
    }
    assert forall|next: StreamState, e: ParserError|
        {
            &&& #[trigger] get_left_by(parser.0, after.0, from, next, e)
            &&& rest.choice_gets(rest_after, next, to, r)
        } implies parser.choice_gets(after, from, to, r) by {
        let (tail, last) = choose|tail: Seq<StreamState>, last: int|
            {
                &&& #[trigger] choice::decides(tail, last, 4, next, to, error)
                &&& choice::get_tried(parser.1, after.1, tail[0], tail[1], 0, last, r)
                &&& choice::get_tried(parser.2, after.2, tail[1], tail[2], 1, last, r)
                &&& choice::get_tried(parser.3, after.3, tail[2], tail[3], 2, last, r)
                &&& choice::get_tried(parser.4, after.4, tail[3], tail[4], 3, last, r)
            };
        assert(recover::get_mismatches(parser.0, after.0, from, next));
        assert(choice::decides(seq![from] + tail, last + 1, 5, from, to, error));
    }
}

/// A choice between five alternatives can be made where the first one can be applied and leaves the
/// stream where it is if the input does not match it, and a choice between the others can be made
/// from there on.
pub proof fn law_choice_between_five_is_ready<
    A: Parser,
    B: Parser<Input = A::Input, Output = A::Output>,
    C: Parser<Input = A::Input, Output = A::Output>,
    D: Parser<Input = A::Input, Output = A::Output>,
    E: Parser<Input = A::Input, Output = A::Output>,
>(
    parser: (A, B, C, D, E),
    from: StreamState,
)
    requires
        parser.0.ready(from),
        recover::stays(parser.0, from),
        forall|output: A::Output| #[trigger] B::held(output) == A::held(output),
        ({
            let rest = (parser.1, parser.2, parser.3, parser.4);
            &&& forall|after: A, at: StreamState, e: ParserError| #[trigger]
                left_by(parser.0, after, from, at, e) ==> rest.choice_ready(at)
            &&& forall|after: A, at: StreamState, e: ParserError| #[trigger]
                get_left_by(parser.0, after, from, at, e) ==> rest.choice_ready(at)
        }),
    ensures
        parser.choice_ready(from),
{
    let rest = (parser.1, parser.2, parser.3, parser.4);
    assert forall|after: A, at: StreamState| #[trigger]
        recover::mismatches(parser.0, after, from, at) implies rest.choice_ready(at) by {
        let e = choose|e: ParserError| #[trigger]
            parser.0.parses(after, from, at, Some(e)) && e.mismatch();
        assert(left_by(parser.0, after, from, at, e));
    }
    assert forall|after: A, at: StreamState| #[trigger]
        recover::get_mismatches(parser.0, after, from, at) implies rest.choice_ready(at) by {
        let e = choose|e: ParserError| #[trigger]
            parser.0.gets(after, from, at, Err(e)) && e.mismatch();
        assert(get_left_by(parser.0, after, from, at, e));
    }
}

/// Of six alternatives, the first one is applied, and the others only if the input does not match
/// it: these do then what a choice between them does.
pub proof fn law_choice_between_six<
    A: Parser,
    B: Parser<Input = A::Input, Output = A::Output>,
    C: Parser<Input = A::Input, Output = A::Output>,
    D: Parser<Input = A::Input, Output = A::Output>,
    E: Parser<Input = A::Input, Output = A::Output>,
    F: Parser<Input = A::Input, Output = A::Output>,
>(
    parser: (A, B, C, D, E, F),
    after: (A, B, C, D, E, F),
    from: StreamState,
    to: StreamState,
    error: Option<ParserError>,
)
    ensures
        parser.choice_parses(after, from, to, error) <==> {
            let rest = (parser.1, parser.2, parser.3, parser.4, parser.5);
            let rest_after = (after.1, after.2, after.3, after.4, after.5);
            ||| !is_left(error) && parser.0.parses(after.0, from, to, error) && rest_after == rest
            ||| exists|at: StreamState, e: ParserError|
                {
                    &&& #[trigger] left_by(parser.0, after.0, from, at, e)
                    &&& rest.choice_parses(rest_after, at, to, error)
                }
        },
{
    let rest = (parser.1, parser.2, parser.3, parser.4, parser.5);
    let rest_after = (after.1, after.2, after.3, after.4, after.5);
    if parser.choice_parses(after, from, to, error) {
        let (at, last) = choose|at: Seq<StreamState>, last: int|
            {
                &&& #[trigger] choice::decides(at, last, 6, from, to, error)
                &&& choice::tried(parser.0, after.0, at[0], at[1], 0, last, error)
                &&& choice::tried(parser.1, after.1, at[1], at[2], 1, last, error)
                &&& choice::tried(parser.2, after.2, at[2], at[3], 2, last, error)
                &&& choice::tried(parser.3, after.3, at[3], at[4], 3, last, error)
                &&& choice::tried(parser.4, after.4, at[4], at[5], 4, last, error)
                &&& choice::tried(parser.5, after.5, at[5], at[6], 5, last, error)
            };
        if last > 0 {
            let e = choose|e: ParserError| #[trigger]
                parser.0.parses(after.0, at[0], at[1], Some(e)) && e.mismatch();
            assert(left_by(parser.0, after.0, from, at[1], e));
            assert(choice::decides(at.skip(1), last - 1, 5, at[1], to, error));
            assert(rest.choice_parses(rest_after, at[1], to, error));
        }
    }
    if !is_left(error) && parser.0.parses(after.0, from, to, error) && rest_after == rest {
        assert(choice::decides(seq![from, to], 0, 6, from, to, error));
    }
    assert forall|next: StreamState, e: ParserError|
        {
            &&& #[trigger] left_by(parser.0, after.0, from, next, e)
            &&& rest.choice_parses(rest_after, next, to, error)
        } implies parser.choice_parses(after, from, to, error) by {
        let (tail, last) = choose|tail: Seq<StreamState>, last: int|
            {
                &&& #[trigger] choice::decides(tail, last, 5, next, to, error)
                &&& choice::tried(parser.1, after.1, tail[0], tail[1], 0, last, error)
                &&& choice::tried(parser.2, after.2, tail[1], tail[2], 1, last, error)
                &&& choice::tried(parser.3, after.3, tail[2], tail[3], 2, last, error)
                &&& choice::tried(parser.4, after.4, tail[3], tail[4], 3, last, error)
                &&& choice::tried(parser.5, after.5, tail[4], tail[5], 4, last, error)
            };
        assert(recover::mismatches(parser.0, after.0, from, next));
        assert(choice::decides(seq![from] + tail, last + 1, 6, from, to, error));
    }
}

/// The output of six alternatives is that of the first one, or of a choice between the others if
/// the input does not match the first one.
pub proof fn law_choice_between_six_gives_first<
    A: Parser,
    B: Parser<Input = A::Input, Output = A::Output>,
    C: Parser<Input = A::Input, Output = A::Output>,
    D: Parser<Input = A::Input, Output = A::Output>,
    E: Parser<Input = A::Input, Output = A::Output>,
    F: Parser<Input = A::Input, Output = A::Output>,
>(
    parser: (A, B, C, D, E, F),
    after: (A, B, C, D, E, F),
    from: StreamState,
    to: StreamState,
    r: Result<A::Output, ParserError>,
    output: A::Output,
)
    ensures
        parser.choice_gets(after, from, to, r) <==> {
            let rest = (parser.1, parser.2, parser.3, parser.4, parser.5);
            let rest_after = (after.1, after.2, after.3, after.4, after.5);
            ||| {
                &&& !is_left(parser::failure(r))
                &&& parser.0.gets(after.0, from, to, r)
                &&& rest_after == rest
            }
            ||| exists|at: StreamState, e: ParserError|
                {
                    &&& #[trigger] get_left_by(parser.0, after.0, from, at, e)
                    &&& rest.choice_gets(rest_after, at, to, r)
                }
        },
        <(A, B, C, D, E, F)>::choice_held(output) == A::held(output),
{
    let rest = (parser.1, parser.2, parser.3, parser.4, parser.5);
    let rest_after = (after.1, after.2, after.3, after.4, after.5);
    let error = parser::failure(r);
    if parser.choice_gets(after, from, to, r) {
        let (at, last) = choose|at: Seq<StreamState>, last: int|
            {
                &&& #[trigger] choice::decides(at, last, 6, from, to, error)
                &&& choice::get_tried(parser.0, after.0, at[0], at[1], 0, last, r)
                &&& choice::get_tried(parser.1, after.1, at[1], at[2], 1, last, r)
                &&& choice::get_tried(parser.2, after.2, at[2], at[3], 2, last, r)
                &&& choice::get_tried(parser.3, after.3, at[3], at[4], 3, last, r)
                &&& choice::get_tried(parser.4, after.4, at[4], at[5], 4, last, r)
                &&& choice::get_tried(parser.5, after.5, at[5], at[6], 5, last, r)
            };
        if last > 0 {
            let e = choose|e: ParserError| #[trigger]
                parser.0.gets(after.0, at[0], at[1], Err(e)) && e.mismatch();
            assert(get_left_by(parser.0, after.0, from, at[1], e));
            assert(choice::decides(at.skip(1), last - 1, 5, at[1], to, error));
            assert(rest.choice_gets(rest_after, at[1], to, r));
        }
    }
    if !is_left(error) && parser.0.gets(after.0, from, to, r) && rest_after == rest {
        assert(choice::decides(seq![from, to], 0, 6, from, to, error));
    }
    assert forall|next: StreamState, e: ParserError|
        {
            &&& #[trigger] get_left_by(parser.0, after.0, from, next, e)
            &&& rest.choice_gets(rest_after, next, to, r)
        } implies parser.choice_gets(after, from, to, r) by {
        let (tail, last) = choose|tail: Seq<StreamState>, last: int|
            {
                &&& #[trigger] choice::decides(tail, last, 5, next, to, error)
                &&& choice::get_tried(parser.1, after.1, tail[0], tail[1], 0, last, r)
                &&& choice::get_tried(parser.2, after.2, tail[1], tail[2], 1, last, r)
                &&& choice::get_tried(parser.3, after.3, tail[2], tail[3], 2, last, r)
                &&& choice::get_tried(parser.4, after.4, tail[3], tail[4], 3, last, r)
                &&& choice::get_tried(parser.5, after.5, tail[4], tail[5], 4, last, r)
            };
        assert(recover::get_mismatches(parser.0, after.0, from, next));
        assert(choice::decides(seq![from] + tail, last + 1, 6, from, to, error));
    }
}

/// A choice between six alternatives can be made where the first one can be applied and leaves the
/// stream where it is if the input does not match it, and a choice between the others can be made
/// from there on.
pub proof fn law_choice_between_six_is_ready<
    A: Parser,
    B: Parser<Input = A::Input, Output = A::Output>,
    C: Parser<Input = A::Input, Output = A::Output>,
    D: Parser<Input = A::Input, Output = A::Output>,
    E: Parser<Input = A::Input, Output = A::Output>,
    F: Parser<Input = A::Input, Output = A::Output>,
>(
    parser: (A, B, C, D, E, F),
    from: StreamState,
)
    requires
        parser.0.ready(from),
        recover::stays(parser.0, from),
        forall|output: A::Output| #[trigger] B::held(output) == A::held(output),
        ({
            let rest = (parser.1, parser.2, parser.3, parser.4, parser.5);
            &&& forall|after: A, at: StreamState, e: ParserError| #[trigger]
                left_by(parser.0, after, from, at, e) ==> rest.choice_ready(at)
            &&& forall|after: A, at: StreamState, e: ParserError| #[trigger]
                get_left_by(parser.0, after, from, at, e) ==> rest.choice_ready(at)
        }),
    ensures
        parser.choice_ready(from),
{
    let rest = (parser.1, parser.2, parser.3, parser.4, parser.5);
    assert forall|after: A, at: StreamState| #[trigger]
        recover::mismatches(parser.0, after, from, at) implies rest.choice_ready(at) by {
        let e = choose|e: ParserError| #[trigger]
            parser.0.parses(after, from, at, Some(e)) && e.mismatch();
        assert(left_by(parser.0, after, from, at, e));
    }
    assert forall|after: A, at: StreamState| #[trigger]
        recover::get_mismatches(parser.0, after, from, at) implies rest.choice_ready(at) by {
        let e = choose|e: ParserError| #[trigger]
            parser.0.gets(after, from, at, Err(e)) && e.mismatch();
        assert(get_left_by(parser.0, after, from, at, e));
    }
}

/// Of seven alternatives, the first one is applied, and the others only if the input does not match
/// it: these do then what a choice between them does.
pub proof fn law_choice_between_seven<
    A: Parser,
    B: Parser<Input = A::Input, Output = A::Output>,
    C: Parser<Input = A::Input, Output = A::Output>,
    D: Parser<Input = A::Input, Output = A::Output>,
    E: Parser<Input = A::Input, Output = A::Output>,
    F: Parser<Input = A::Input, Output = A::Output>,
    G: Parser<Input = A::Input, Output = A::Output>,
>(
    parser: (A, B, C, D, E, F, G),
    after: (A, B, C, D, E, F, G),
    from: StreamState,
    to: StreamState,
    error: Option<ParserError>,
)
    ensures
        parser.choice_parses(after, from, to, error) <==> {
            let rest = (parser.1, parser.2, parser.3, parser.4, parser.5, parser.6);
            let rest_after = (after.1, after.2, after.3, after.4, after.5, after.6);
            ||| !is_left(error) && parser.0.parses(after.0, from, to, error) && rest_after == rest
            ||| exists|at: StreamState, e: ParserError|
                {
                    &&& #[trigger] left_by(parser.0, after.0, from, at, e)
                    &&& rest.choice_parses(rest_after, at, to, error)
                }
        },
{
    let rest = (parser.1, parser.2, parser.3, parser.4, parser.5, parser.6);
    let rest_after = (after.1, after.2, after.3, after.4, after.5, after.6);
    if parser.choice_parses(after, from, to, error) {
        let (at, last) = choose|at: Seq<StreamState>, last: int|
            {
                &&& #[trigger] choice::decides(at, last, 7, from, to, error)
                &&& choice::tried(parser.0, after.0, at[0], at[1], 0, last, error)
                &&& choice::tried(parser.1, after.1, at[1], at[2], 1, last, error)
                &&& choice::tried(parser.2, after.2, at[2], at[3], 2, last, error)
                &&& choice::tried(parser.3, after.3, at[3], at[4], 3, last, error)
                &&& choice::tried(parser.4, after.4, at[4], at[5], 4, last, error)
                &&& choice::tried(parser.5, after.5, at[5], at[6], 5, last, error)
                &&& choice::tried(parser.6, after.6, at[6], at[7], 6, last, error)
            };
        if last > 0 {
            let e = choose|e: ParserError| #[trigger]
                parser.0.parses(after.0, at[0], at[1], Some(e)) && e.mismatch();
            assert(left_by(parser.0, after.0, from, at[1], e));
            assert(choice::decides(at.skip(1), last - 1, 6, at[1], to, error));
            assert(rest.choice_parses(rest_after, at[1], to, error));
        }
    }
    if !is_left(error) && parser.0.parses(after.0, from, to, error) && rest_after == rest {
        assert(choice::decides(seq![from, to], 0, 7, from, to, error));
    }
    assert forall|next: StreamState, e: ParserError|
        {
            &&& #[trigger] left_by(parser.0, after.0, from, next, e)
            &&& rest.choice_parses(rest_after, next, to, error)
        } implies parser.choice_parses(after, from, to, error) by {
        let (tail, last) = choose|tail: Seq<StreamState>, last: int|
            {
                &&& #[trigger] choice::decides(tail, last, 6, next, to, error)
                &&& choice::tried(parser.1, after.1, tail[0], tail[1], 0, last, error)
                &&& choice::tried(parser.2, after.2, tail[1], tail[2], 1, last, error)
                &&& choice::tried(parser.3, after.3, tail[2], tail[3], 2, last, error)
                &&& choice::tried(parser.4, after.4, tail[3], tail[4], 3, last, error)
                &&& choice::tried(parser.5, after.5, tail[4], tail[5], 4, last, error)
                &&& choice::tried(parser.6, after.6, tail[5], tail[6], 5, last, error)
            };
        assert(recover::mismatches(parser.0, after.0, from, next));
        assert(choice::decides(seq![from] + tail, last + 1, 7, from, to, error));
    }
}

/// The output of seven alternatives is that of the first one, or of a choice between the others if
/// the input does not match the first one.
pub proof fn law_choice_between_seven_gives_first<
    A: Parser,
    B: Parser<Input = A::Input, Output = A::Output>,
    C: Parser<Input = A::Input, Output = A::Output>,
    D: Parser<Input = A::Input, Output = A::Output>,
    E: Parser<Input = A::Input, Output = A::Output>,
    F: Parser<Input = A::Input, Output = A::Output>,
    G: Parser<Input = A::Input, Output = A::Output>,
>(
    parser: (A, B, C, D, E, F, G),
    after: (A, B, C, D, E, F, G),
    from: StreamState,
    to: StreamState,
    r: Result<A::Output, ParserError>,
    output: A::Output,
)
    ensures
        parser.choice_gets(after, from, to, r) <==> {
            let rest = (parser.1, parser.2, parser.3, parser.4, parser.5, parser.6);
            let rest_after = (after.1, after.2, after.3, after.4, after.5, after.6);
            ||| {
                &&& !is_left(parser::failure(r))
                &&& parser.0.gets(after.0, from, to, r)
                &&& rest_after == rest
            }
            ||| exists|at: StreamState, e: ParserError|
                {
                    &&& #[trigger] get_left_by(parser.0, after.0, from, at, e)
                    &&& rest.choice_gets(rest_after, at, to, r)
                }
        },
        <(A, B, C, D, E, F, G)>::choice_held(output) == A::held(output),
{
    let rest = (parser.1, parser.2, parser.3, parser.4, parser.5, parser.6);
    let rest_after = (after.1, after.2, after.3, after.4, after.5, after.6);
    let error = parser::failure(r);
    if parser.choice_gets(after, from, to, r) {
        let (at, last) = choose|at: Seq<StreamState>, last: int|
            {
                &&& #[trigger] choice::decides(at, last, 7, from, to, error)
                &&& choice::get_tried(parser.0, after.0, at[0], at[1], 0, last, r)
                &&& choice::get_tried(parser.1, after.1, at[1], at[2], 1, last, r)
                &&& choice::get_tried(parser.2, after.2, at[2], at[3], 2, last, r)
                &&& choice::get_tried(parser.3, after.3, at[3], at[4], 3, last, r)
                &&& choice::get_tried(parser.4, after.4, at[4], at[5], 4, last, r)
                &&& choice::get_tried(parser.5, after.5, at[5], at[6], 5, last, r)
                &&& choice::get_tried(parser.6, after.6, at[6], at[7], 6, last, r)
            };
        if last > 0 {
            let e = choose|e: ParserError| #[trigger]
                parser.0.gets(after.0, at[0], at[1], Err(e)) && e.mismatch();
            assert(get_left_by(parser.0, after.0, from, at[1], e));
            assert(choice::decides(at.skip(1), last - 1, 6, at[1], to, error));
            assert(rest.choice_gets(rest_after, at[1], to, r));
        }
    }
    if !is_left(error) && parser.0.gets(after.0, from, to, r) && rest_after == rest {
        assert(choice::decides(seq![from, to], 0, 7, from, to, error));
    }
    assert forall|next: StreamState, e: ParserError|
        {
            &&& #[trigger] get_left_by(parser.0, after.0, from, next, e)
            &&& rest.choice_gets(rest_after, next, to, r)
        } implies parser.choice_gets(after, from, to, r) by {
        let (tail, last) = choose|tail: Seq<StreamState>, last: int|
            {
                &&& #[trigger] choice::decides(tail, last, 6, next, to, error)
                &&& choice::get_tried(parser.1, after.1, tail[0], tail[1], 0, last, r)
                &&& choice::get_tried(parser.2, after.2, tail[1], tail[2], 1, last, r)
                &&& choice::get_tried(parser.3, after.3, tail[2], tail[3], 2, last, r)
                &&& choice::get_tried(parser.4, after.4, tail[3], tail[4], 3, last, r)
                &&& choice::get_tried(parser.5, after.5, tail[4], tail[5], 4, last, r)
                &&& choice::get_tried(parser.6, after.6, tail[5], tail[6], 5, last, r)
            };
        assert(recover::get_mismatches(parser.0, after.0, from, next));
        assert(choice::decides(seq![from] + tail, last + 1, 7, from, to, error));
    }
}

/// A choice between seven alternatives can be made where the first one can be applied and leaves
/// the stream where it is if the input does not match it, and a choice between the others can be
/// made from there on.
pub proof fn law_choice_between_seven_is_ready<
    A: Parser,
    B: Parser<Input = A::Input, Output = A::Output>,
    C: Parser<Input = A::Input, Output = A::Output>,
    D: Parser<Input = A::Input, Output = A::Output>,
    E: Parser<Input = A::Input, Output = A::Output>,
    F: Parser<Input = A::Input, Output = A::Output>,
    G: Parser<Input = A::Input, Output = A::Output>,
>(
    parser: (A, B, C, D, E, F, G),
    from: StreamState,
)
    requires
        parser.0.ready(from),
        recover::stays(parser.0, from),
        forall|output: A::Output| #[trigger] B::held(output) == A::held(output),
        ({
            let rest = (parser.1, parser.2, parser.3, parser.4, parser.5, parser.6);
            &&& forall|after: A, at: StreamState, e: ParserError| #[trigger]
                left_by(parser.0, after, from, at, e) ==> rest.choice_ready(at)
            &&& forall|after: A, at: StreamState, e: ParserError| #[trigger]
                get_left_by(parser.0, after, from, at, e) ==> rest.choice_ready(at)
        }),
    ensures
        parser.choice_ready(from),
{
    let rest = (parser.1, parser.2, parser.3, parser.4, parser.5, parser.6);
    assert forall|after: A, at: StreamState| #[trigger]
        recover::mismatches(parser.0, after, from, at) implies rest.choice_ready(at) by {
        let e = choose|e: ParserError| #[trigger]
            parser.0.parses(after, from, at, Some(e)) && e.mismatch();
        assert(left_by(parser.0, after, from, at, e));
    }
    assert forall|after: A, at: StreamState| #[trigger]
        recover::get_mismatches(parser.0, after, from, at) implies rest.choice_ready(at) by {
        let e = choose|e: ParserError| #[trigger]
            parser.0.gets(after, from, at, Err(e)) && e.mismatch();
        assert(get_left_by(parser.0, after, from, at, e));
    }
}

/// Of eight alternatives, the first one is applied, and the others only if the input does not match
/// it: these do then what a choice between them does.
pub proof fn law_choice_between_eight<
    A: Parser,
    B: Parser<Input = A::Input, Output = A::Output>,
    C: Parser<Input = A::Input, Output = A::Output>,
    D: Parser<Input = A::Input, Output = A::Output>,
    E: Parser<Input = A::Input, Output = A::Output>,
    F: Parser<Input = A::Input, Output = A::Output>,
    G: Parser<Input = A::Input, Output = A::Output>,
    H: Parser<Input = A::Input, Output = A::Output>,
>(
    parser: (A, B, C, D, E, F, G, H),
    after: (A, B, C, D, E, F, G, H),
    from: StreamState,
    to: StreamState,
    error: Option<ParserError>,
)
    ensures
        parser.choice_parses(after, from, to, error) <==> {
            let rest = (parser.1, parser.2, parser.3, parser.4, parser.5, parser.6, parser.7);
            let rest_after = (after.1, after.2, after.3, after.4, after.5, after.6, after.7);
            ||| !is_left(error) && parser.0.parses(after.0, from, to, error) && rest_after == rest
            ||| exists|at: StreamState, e: ParserError|
                {
                    &&& #[trigger] left_by(parser.0, after.0, from, at, e)
                    &&& rest.choice_parses(rest_after, at, to, error)
                }
        },
{
    let rest = (parser.1, parser.2, parser.3, parser.4, parser.5, parser.6, parser.7);
    let rest_after = (after.1, after.2, after.3, after.4, after.5, after.6, after.7);
    if parser.choice_parses(after, from, to, error) {
        let (at, last) = choose|at: Seq<StreamState>, last: int|
            {
                &&& #[trigger] choice::decides(at, last, 8, from, to, error)
                &&& choice::tried(parser.0, after.0, at[0], at[1], 0, last, error)
                &&& choice::tried(parser.1, after.1, at[1], at[2], 1, last, error)
                &&& choice::tried(parser.2, after.2, at[2], at[3], 2, last, error)
                &&& choice::tried(parser.3, after.3, at[3], at[4], 3, last, error)
                &&& choice::tried(parser.4, after.4, at[4], at[5], 4, last, error)
                &&& choice::tried(parser.5, after.5, at[5], at[6], 5, last, error)
                &&& choice::tried(parser.6, after.6, at[6], at[7], 6, last, error)
                &&& choice::tried(parser.7, after.7, at[7], at[8], 7, last, error)
            };
        if last > 0 {
            let e = choose|e: ParserError| #[trigger]
                parser.0.parses(after.0, at[0], at[1], Some(e)) && e.mismatch();
            assert(left_by(parser.0, after.0, from, at[1], e));
            assert(choice::decides(at.skip(1), last - 1, 7, at[1], to, error));
            assert(rest.choice_parses(rest_after, at[1], to, error));
        }
    }
    if !is_left(error) && parser.0.parses(after.0, from, to, error) && rest_after == rest {
        assert(choice::decides(seq![from, to], 0, 8, from, to, error));
    }
    assert forall|next: StreamState, e: ParserError|
        {
            &&& #[trigger] left_by(parser.0, after.0, from, next, e)
            &&& rest.choice_parses(rest_after, next, to, error)
        } implies parser.choice_parses(after, from, to, error) by {
        let (tail, last) = choose|tail: Seq<StreamState>, last: int|
            {
                &&& #[trigger] choice::decides(tail, last, 7, next, to, error)
                &&& choice::tried(parser.1, after.1, tail[0], tail[1], 0, last, error)
                &&& choice::tried(parser.2, after.2, tail[1], tail[2], 1, last, error)
                &&& choice::tried(parser.3, after.3, tail[2], tail[3], 2, last, error)
                &&& choice::tried(parser.4, after.4, tail[3], tail[4], 3, last, error)
                &&& choice::tried(parser.5, after.5, tail[4], tail[5], 4, last, error)
                &&& choice::tried(parser.6, after.6, tail[5], tail[6], 5, last, error)
                &&& choice::tried(parser.7, after.7, tail[6], tail[7], 6, last, error)
            };
        assert(recover::mismatches(parser.0, after.0, from, next));
        assert(choice::decides(seq![from] + tail, last + 1, 8, from, to, error));
    }
}

/// The output of eight alternatives is that of the first one, or of a choice between the others if
/// the input does not match the first one.
pub proof fn law_choice_between_eight_gives_first<
    A: Parser,
    B: Parser<Input = A::Input, Output = A::Output>,
    C: Parser<Input = A::Input, Output = A::Output>,
    D: Parser<Input = A::Input, Output = A::Output>,
    E: Parser<Input = A::Input, Output = A::Output>,
    F: Parser<Input = A::Input, Output = A::Output>,
    G: Parser<Input = A::Input, Output = A::Output>,
    H: Parser<Input = A::Input, Output = A::Output>,
>(
    parser: (A, B, C, D, E, F, G, H),
    after: (A, B, C, D, E, F, G, H),
    from: StreamState,
    to: StreamState,
    r: Result<A::Output, ParserError>,
    output: A::Output,
)
    ensures
        parser.choice_gets(after, from, to, r) <==> {
            let rest = (parser.1, parser.2, parser.3, parser.4, parser.5, parser.6, parser.7);
            let rest_after = (after.1, after.2, after.3, after.4, after.5, after.6, after.7);
            ||| {
                &&& !is_left(parser::failure(r))
                &&& parser.0.gets(after.0, from, to, r)
                &&& rest_after == rest
            }
            ||| exists|at: StreamState, e: ParserError|
                {
                    &&& #[trigger] get_left_by(parser.0, after.0, from, at, e)
                    &&& rest.choice_gets(rest_after, at, to, r)
                }
        },
        <(A, B, C, D, E, F, G, H)>::choice_held(output) == A::held(output),
{
    let rest = (parser.1, parser.2, parser.3, parser.4, parser.5, parser.6, parser.7);
    let rest_after = (after.1, after.2, after.3, after.4, after.5, after.6, after.7);
    let error = parser::failure(r);
    if parser.choice_gets(after, from, to, r) {
        let (at, last) = choose|at: Seq<StreamState>, last: int|
            {
                &&& #[trigger] choice::decides(at, last, 8, from, to, error)
                &&& choice::get_tried(parser.0, after.0, at[0], at[1], 0, last, r)
                &&& choice::get_tried(parser.1, after.1, at[1], at[2], 1, last, r)
                &&& choice::get_tried(parser.2, after.2, at[2], at[3], 2, last, r)
                &&& choice::get_tried(parser.3, after.3, at[3], at[4], 3, last, r)
                &&& choice::get_tried(parser.4, after.4, at[4], at[5], 4, last, r)
                &&& choice::get_tried(parser.5, after.5, at[5], at[6], 5, last, r)
                &&& choice::get_tried(parser.6, after.6, at[6], at[7], 6, last, r)
                &&& choice::get_tried(parser.7, after.7, at[7], at[8], 7, last, r)
            };
        if last > 0 {
            let e = choose|e: ParserError| #[trigger]
                parser.0.gets(after.0, at[0], at[1], Err(e)) && e.mismatch();
            assert(get_left_by(parser.0, after.0, from, at[1], e));
            assert(choice::decides(at.skip(1), last - 1, 7, at[1], to, error));
            assert(rest.choice_gets(rest_after, at[1], to, r));
        }
    }
    if !is_left(error) && parser.0.gets(after.0, from, to, r) && rest_after == rest {
        assert(choice::decides(seq![from, to], 0, 8, from, to, error));
    }
    assert forall|next: StreamState, e: ParserError|
        {
            &&& #[trigger] get_left_by(parser.0, after.0, from, next, e)
            &&& rest.choice_gets(rest_after, next, to, r)
        } implies parser.choice_gets(after, from, to, r) by {
        let (tail, last) = choose|tail: Seq<StreamState>, last: int|
            {
                &&& #[trigger] choice::decides(tail, last, 7, next, to, error)
                &&& choice::get_tried(parser.1, after.1, tail[0], tail[1], 0, last, r)
                &&& choice::get_tried(parser.2, after.2, tail[1], tail[2], 1, last, r)
                &&& choice::get_tried(parser.3, after.3, tail[2], tail[3], 2, last, r)
                &&& choice::get_tried(parser.4, after.4, tail[3], tail[4], 3, last, r)
                &&& choice::get_tried(parser.5, after.5, tail[4], tail[5], 4, last, r)
                &&& choice::get_tried(parser.6, after.6, tail[5], tail[6], 5, last, r)
                &&& choice::get_tried(parser.7, after.7, tail[6], tail[7], 6, last, r)
            };
        assert(recover::get_mismatches(parser.0, after.0, from, next));
        assert(choice::decides(seq![from] + tail, last + 1, 8, from, to, error));
    }
}

/// A choice between eight alternatives can be made where the first one can be applied and leaves
/// the stream where it is if the input does not match it, and a choice between the others can be
/// made from there on.
pub proof fn law_choice_between_eight_is_ready<
    A: Parser,
    B: Parser<Input = A::Input, Output = A::Output>,
    C: Parser<Input = A::Input, Output = A::Output>,
    D: Parser<Input = A::Input, Output = A::Output>,
    E: Parser<Input = A::Input, Output = A::Output>,
    F: Parser<Input = A::Input, Output = A::Output>,
    G: Parser<Input = A::Input, Output = A::Output>,
    H: Parser<Input = A::Input, Output = A::Output>,
>(
    parser: (A, B, C, D, E, F, G, H),
    from: StreamState,
)
    requires
        parser.0.ready(from),
        recover::stays(parser.0, from),
        forall|output: A::Output| #[trigger] B::held(output) == A::held(output),
        ({
            let rest = (parser.1, parser.2, parser.3, parser.4, parser.5, parser.6, parser.7);
            &&& forall|after: A, at: StreamState, e: ParserError| #[trigger]
                left_by(parser.0, after, from, at, e) ==> rest.choice_ready(at)
            &&& forall|after: A, at: StreamState, e: ParserError| #[trigger]
                get_left_by(parser.0, after, from, at, e) ==> rest.choice_ready(at)
        }),
    ensures
        parser.choice_ready(from),
{
    let rest = (parser.1, parser.2, parser.3, parser.4, parser.5, parser.6, parser.7);
    assert forall|after: A, at: StreamState| #[trigger]
        recover::mismatches(parser.0, after, from, at) implies rest.choice_ready(at) by {
        let e = choose|e: ParserError| #[trigger]
            parser.0.parses(after, from, at, Some(e)) && e.mismatch();
        assert(left_by(parser.0, after, from, at, e));
    }
    assert forall|after: A, at: StreamState| #[trigger]
        recover::get_mismatches(parser.0, after, from, at) implies rest.choice_ready(at) by {
        let e = choose|e: ParserError| #[trigger]
            parser.0.gets(after, from, at, Err(e)) && e.mismatch();
        assert(get_left_by(parser.0, after, from, at, e));
    }
}

/// Of nine alternatives, the first one is applied, and the others only if the input does not match
/// it: these do then what a choice between them does.
pub proof fn law_choice_between_nine<
    A: Parser,
    B: Parser<Input = A::Input, Output = A::Output>,
    C: Parser<Input = A::Input, Output = A::Output>,
    D: Parser<Input = A::Input, Output = A::Output>,
    E: Parser<Input = A::Input, Output = A::Output>,
    F: Parser<Input = A::Input, Output = A::Output>,
    G: Parser<Input = A::Input, Output = A::Output>,
    H: Parser<Input = A::Input, Output = A::Output>,
    I: Parser<Input = A::Input, Output = A::Output>,
>(
    parser: (A, B, C, D, E, F, G, H, I),
    after: (A, B, C, D, E, F, G, H, I),
    from: StreamState,
    to: StreamState,
    error: Option<ParserError>,
)
    ensures
        parser.choice_parses(after, from, to, error) <==> {
            let rest = (
                parser.1,
                parser.2,
                parser.3,
                parser.4,
                parser.5,
                parser.6,
                parser.7,
                parser.8,
            );
            let rest_after = (
                after.1,
                after.2,
                after.3,
                after.4,
                after.5,
                after.6,
                after.7,
                after.8,
            );
            ||| !is_left(error) && parser.0.parses(after.0, from, to, error) && rest_after == rest
            ||| exists|at: StreamState, e: ParserError|
                {
                    &&& #[trigger] left_by(parser.0, after.0, from, at, e)
                    &&& rest.choice_parses(rest_after, at, to, error)
                }
        },
{
    let rest = (parser.1, parser.2, parser.3, parser.4, parser.5, parser.6, parser.7, parser.8);
    let rest_after = (after.1, after.2, after.3, after.4, after.5, after.6, after.7, after.8);
    if parser.choice_parses(after, from, to, error) {
        let (at, last) = choose|at: Seq<StreamState>, last: int|
            {
                &&& #[trigger] choice::decides(at, last, 9, from, to, error)
                &&& choice::tried(parser.0, after.0, at[0], at[1], 0, last, error)
                &&& choice::tried(parser.1, after.1, at[1], at[2], 1, last, error)
                &&& choice::tried(parser.2, after.2, at[2], at[3], 2, last, error)
                &&& choice::tried(parser.3, after.3, at[3], at[4], 3, last, error)
                &&& choice::tried(parser.4, after.4, at[4], at[5], 4, last, error)
                &&& choice::tried(parser.5, after.5, at[5], at[6], 5, last, error)
                &&& choice::tried(parser.6, after.6, at[6], at[7], 6, last, error)
                &&& choice::tried(parser.7, after.7, at[7], at[8], 7, last, error)
                &&& choice::tried(parser.8, after.8, at[8], at[9], 8, last, error)
            };
        if last > 0 {
            let e = choose|e: ParserError| #[trigger]
                parser.0.parses(after.0, at[0], at[1], Some(e)) && e.mismatch();
            assert(left_by(parser.0, after.0, from, at[1], e));
            assert(choice::decides(at.skip(1), last - 1, 8, at[1], to, error));
            assert(rest.choice_parses(rest_after, at[1], to, error));
        }
    }
    if !is_left(error) && parser.0.parses(after.0, from, to, error) && rest_after == rest {
        assert(choice::decides(seq![from, to], 0, 9, from, to, error));
    }
    assert forall|next: StreamState, e: ParserError|
        {
            &&& #[trigger] left_by(parser.0, after.0, from, next, e)
            &&& rest.choice_parses(rest_after, next, to, error)
        } implies parser.choice_parses(after, from, to, error) by {
        let (tail, last) = choose|tail: Seq<StreamState>, last: int|
            {
                &&& #[trigger] choice::decides(tail, last, 8, next, to, error)
                &&& choice::tried(parser.1, after.1, tail[0], tail[1], 0, last, error)
                &&& choice::tried(parser.2, after.2, tail[1], tail[2], 1, last, error)
                &&& choice::tried(parser.3, after.3, tail[2], tail[3], 2, last, error)
                &&& choice::tried(parser.4, after.4, tail[3], tail[4], 3, last, error)
                &&& choice::tried(parser.5, after.5, tail[4], tail[5], 4, last, error)
                &&& choice::tried(parser.6, after.6, tail[5], tail[6], 5, last, error)
                &&& choice::tried(parser.7, after.7, tail[6], tail[7], 6, last, error)
                &&& choice::tried(parser.8, after.8, tail[7], tail[8], 7, last, error)
            };
        assert(recover::mismatches(parser.0, after.0, from, next));
        assert(choice::decides(seq![from] + tail, last + 1, 9, from, to, error));
    }
}

/// The output of nine alternatives is that of the first one, or of a choice between the others if
/// the input does not match the first one.
pub proof fn law_choice_between_nine_gives_first<
    A: Parser,
    B: Parser<Input = A::Input, Output = A::Output>,
    C: Parser<Input = A::Input, Output = A::Output>,
    D: Parser<Input = A::Input, Output = A::Output>,
    E: Parser<Input = A::Input, Output = A::Output>,
    F: Parser<Input = A::Input, Output = A::Output>,
    G: Parser<Input = A::Input, Output = A::Output>,
    H: Parser<Input = A::Input, Output = A::Output>,
    I: Parser<Input = A::Input, Output = A::Output>,
>(
    parser: (A, B, C, D, E, F, G, H, I),
    after: (A, B, C, D, E, F, G, H, I),
    from: StreamState,
    to: StreamState,
    r: Result<A::Output, ParserError>,
    output: A::Output,
)
    ensures
        parser.choice_gets(after, from, to, r) <==> {
            let rest = (
                parser.1,
                parser.2,
                parser.3,
                parser.4,
                parser.5,
                parser.6,
                parser.7,
                parser.8,
            );
            let rest_after = (
                after.1,
                after.2,
                after.3,
                after.4,
                after.5,
                after.6,
                after.7,
                after.8,
            );
            ||| {
                &&& !is_left(parser::failure(r))
                &&& parser.0.gets(after.0, from, to, r)
                &&& rest_after == rest
            }
            ||| exists|at: StreamState, e: ParserError|
                {
                    &&& #[trigger] get_left_by(parser.0, after.0, from, at, e)
                    &&& rest.choice_gets(rest_after, at, to, r)
                }
        },
        <(A, B, C, D, E, F, G, H, I)>::choice_held(output) == A::held(output),
{
    let rest = (parser.1, parser.2, parser.3, parser.4, parser.5, parser.6, parser.7, parser.8);
    let rest_after = (after.1, after.2, after.3, after.4, after.5, after.6, after.7, after.8);
    let error = parser::failure(r);
    if parser.choice_gets(after, from, to, r) {
        let (at, last) = choose|at: Seq<StreamState>, last: int|
            {
                &&& #[trigger] choice::decides(at, last, 9, from, to, error)
                &&& choice::get_tried(parser.0, after.0, at[0], at[1], 0, last, r)
                &&& choice::get_tried(parser.1, after.1, at[1], at[2], 1, last, r)
                &&& choice::get_tried(parser.2, after.2, at[2], at[3], 2, last, r)
                &&& choice::get_tried(parser.3, after.3, at[3], at[4], 3, last, r)
                &&& choice::get_tried(parser.4, after.4, at[4], at[5], 4, last, r)
                &&& choice::get_tried(parser.5, after.5, at[5], at[6], 5, last, r)
                &&& choice::get_tried(parser.6, after.6, at[6], at[7], 6, last, r)
                &&& choice::get_tried(parser.7, after.7, at[7], at[8], 7, last, r)
                &&& choice::get_tried(parser.8, after.8, at[8], at[9], 8, last, r)
            };
        if last > 0 {
            let e = choose|e: ParserError| #[trigger]
                parser.0.gets(after.0, at[0], at[1], Err(e)) && e.mismatch();
            assert(get_left_by(parser.0, after.0, from, at[1], e));
            assert(choice::decides(at.skip(1), last - 1, 8, at[1], to, error));
            assert(rest.choice_gets(rest_after, at[1], to, r));
        }
    }
    if !is_left(error) && parser.0.gets(after.0, from, to, r) && rest_after == rest {
        assert(choice::decides(seq![from, to], 0, 9, from, to, error));
    }
    assert forall|next: StreamState, e: ParserError|
        {
            &&& #[trigger] get_left_by(parser.0, after.0, from, next, e)
            &&& rest.choice_gets(rest_after, next, to, r)
        } implies parser.choice_gets(after, from, to, r) by {
        let (tail, last) = choose|tail: Seq<StreamState>, last: int|
            {
                &&& #[trigger] choice::decides(tail, last, 8, next, to, error)
                &&& choice::get_tried(parser.1, after.1, tail[0], tail[1], 0, last, r)
                &&& choice::get_tried(parser.2, after.2, tail[1], tail[2], 1, last, r)
                &&& choice::get_tried(parser.3, after.3, tail[2], tail[3], 2, last, r)
                &&& choice::get_tried(parser.4, after.4, tail[3], tail[4], 3, last, r)
                &&& choice::get_tried(parser.5, after.5, tail[4], tail[5], 4, last, r)
                &&& choice::get_tried(parser.6, after.6, tail[5], tail[6], 5, last, r)
                &&& choice::get_tried(parser.7, after.7, tail[6], tail[7], 6, last, r)
                &&& choice::get_tried(parser.8, after.8, tail[7], tail[8], 7, last, r)
            };
        assert(recover::get_mismatches(parser.0, after.0, from, next));
        assert(choice::decides(seq![from] + tail, last + 1, 9, from, to, error));
    }
}

/// A choice between nine alternatives can be made where the first one can be applied and leaves the
/// stream where it is if the input does not match it, and a choice between the others can be made
/// from there on.
pub proof fn law_choice_between_nine_is_ready<
    A: Parser,
    B: Parser<Input = A::Input, Output = A::Output>,
    C: Parser<Input = A::Input, Output = A::Output>,
    D: Parser<Input = A::Input, Output = A::Output>,
    E: Parser<Input = A::Input, Output = A::Output>,
    F: Parser<Input = A::Input, Output = A::Output>,
    G: Parser<Input = A::Input, Output = A::Output>,
    H: Parser<Input = A::Input, Output = A::Output>,
    I: Parser<Input = A::Input, Output = A::Output>,
>(
    parser: (A, B, C, D, E, F, G, H, I),
    from: StreamState,
)
    requires
        parser.0.ready(from),
        recover::stays(parser.0, from),
        forall|output: A::Output| #[trigger] B::held(output) == A::held(output),
        ({
            let rest = (
                parser.1,
                parser.2,
                parser.3,
                parser.4,
                parser.5,
                parser.6,
                parser.7,
                parser.8,
            );
            &&& forall|after: A, at: StreamState, e: ParserError| #[trigger]
                left_by(parser.0, after, from, at, e) ==> rest.choice_ready(at)
            &&& forall|after: A, at: StreamState, e: ParserError| #[trigger]
                get_left_by(parser.0, after, from, at, e) ==> rest.choice_ready(at)
        }),
    ensures
        parser.choice_ready(from),
{
    let rest = (parser.1, parser.2, parser.3, parser.4, parser.5, parser.6, parser.7, parser.8);
    assert forall|after: A, at: StreamState| #[trigger]
        recover::mismatches(parser.0, after, from, at) implies rest.choice_ready(at) by {
        let e = choose|e: ParserError| #[trigger]
            parser.0.parses(after, from, at, Some(e)) && e.mismatch();
        assert(left_by(parser.0, after, from, at, e));
    }
    assert forall|after: A, at: StreamState| #[trigger]
        recover::get_mismatches(parser.0, after, from, at) implies rest.choice_ready(at) by {
        let e = choose|e: ParserError| #[trigger]
            parser.0.gets(after, from, at, Err(e)) && e.mismatch();
        assert(get_left_by(parser.0, after, from, at, e));
    }
}

/// Of ten alternatives, the first one is applied, and the others only if the input does not match
/// it: these do then what a choice between them does.
pub proof fn law_choice_between_ten<
    A: Parser,
    B: Parser<Input = A::Input, Output = A::Output>,
    C: Parser<Input = A::Input, Output = A::Output>,
    D: Parser<Input = A::Input, Output = A::Output>,
    E: Parser<Input = A::Input, Output = A::Output>,
    F: Parser<Input = A::Input, Output = A::Output>,
    G: Parser<Input = A::Input, Output = A::Output>,
    H: Parser<Input = A::Input, Output = A::Output>,
    I: Parser<Input = A::Input, Output = A::Output>,
    J: Parser<Input = A::Input, Output = A::Output>,
>(
    parser: (A, B, C, D, E, F, G, H, I, J),
    after: (A, B, C, D, E, F, G, H, I, J),
    from: StreamState,
    to: StreamState,
    error: Option<ParserError>,
)
    ensures
        parser.choice_parses(after, from, to, error) <==> {
            let rest = (
                parser.1,
                parser.2,
                parser.3,
                parser.4,
                parser.5,
                parser.6,
                parser.7,
                parser.8,
                parser.9,
            );
            let rest_after = (
                after.1,
                after.2,
                after.3,
                after.4,
                after.5,
                after.6,
                after.7,
                after.8,
                after.9,
            );
            ||| !is_left(error) && parser.0.parses(after.0, from, to, error) && rest_after == rest
            ||| exists|at: StreamState, e: ParserError|
                {
                    &&& #[trigger] left_by(parser.0, after.0, from, at, e)
                    &&& rest.choice_parses(rest_after, at, to, error)
                }
        },
{
    let rest = (
        parser.1,
        parser.2,
        parser.3,
        parser.4,
        parser.5,
        parser.6,
        parser.7,
        parser.8,
        parser.9,
    );
    let rest_after = (
        after.1,
        after.2,
        after.3,
        after.4,
        after.5,
        after.6,
        after.7,
        after.8,
        after.9,
    );
    if parser.choice_parses(after, from, to, error) {
        let (at, last) = choose|at: Seq<StreamState>, last: int|
            {
                &&& #[trigger] choice::decides(at, last, 10, from, to, error)
                &&& choice::tried(parser.0, after.0, at[0], at[1], 0, last, error)
                &&& choice::tried(parser.1, after.1, at[1], at[2], 1, last, error)
                &&& choice::tried(parser.2, after.2, at[2], at[3], 2, last, error)
                &&& choice::tried(parser.3, after.3, at[3], at[4], 3, last, error)
                &&& choice::tried(parser.4, after.4, at[4], at[5], 4, last, error)
                &&& choice::tried(parser.5, after.5, at[5], at[6], 5, last, error)
                &&& choice::tried(parser.6, after.6, at[6], at[7], 6, last, error)
                &&& choice::tried(parser.7, after.7, at[7], at[8], 7, last, error)
                &&& choice::tried(parser.8, after.8, at[8], at[9], 8, last, error)
                &&& choice::tried(parser.9, after.9, at[9], at[10], 9, last, error)
            };
        if last > 0 {
            let e = choose|e: ParserError| #[trigger]
                parser.0.parses(after.0, at[0], at[1], Some(e)) && e.mismatch();
            assert(left_by(parser.0, after.0, from, at[1], e));
            assert(choice::decides(at.skip(1), last - 1, 9, at[1], to, error));
            assert(rest.choice_parses(rest_after, at[1], to, error));
        }
    }
    if !is_left(error) && parser.0.parses(after.0, from, to, error) && rest_after == rest {
        assert(choice::decides(seq![from, to], 0, 10, from, to, error));
    }
    assert forall|next: StreamState, e: ParserError|
        {
            &&& #[trigger] left_by(parser.0, after.0, from, next, e)
            &&& rest.choice_parses(rest_after, next, to, error)
        } implies parser.choice_parses(after, from, to, error) by {
        let (tail, last) = choose|tail: Seq<StreamState>, last: int|
            {
                &&& #[trigger] choice::decides(tail, last, 9, next, to, error)
                &&& choice::tried(parser.1, after.1, tail[0], tail[1], 0, last, error)
                &&& choice::tried(parser.2, after.2, tail[1], tail[2], 1, last, error)
                &&& choice::tried(parser.3, after.3, tail[2], tail[3], 2, last, error)
                &&& choice::tried(parser.4, after.4, tail[3], tail[4], 3, last, error)
                &&& choice::tried(parser.5, after.5, tail[4], tail[5], 4, last, error)
                &&& choice::tried(parser.6, after.6, tail[5], tail[6], 5, last, error)
                &&& choice::tried(parser.7, after.7, tail[6], tail[7], 6, last, error)
                &&& choice::tried(parser.8, after.8, tail[7], tail[8], 7, last, error)
                &&& choice::tried(parser.9, after.9, tail[8], tail[9], 8, last, error)
            };
        assert(recover::mismatches(parser.0, after.0, from, next));
        assert(choice::decides(seq![from] + tail, last + 1, 10, from, to, error));
    }
}

/// The output of ten alternatives is that of the first one, or of a choice between the others if
/// the input does not match the first one.
pub proof fn law_choice_between_ten_gives_first<
    A: Parser,
    B: Parser<Input = A::Input, Output = A::Output>,
    C: Parser<Input = A::Input, Output = A::Output>,
    D: Parser<Input = A::Input, Output = A::Output>,
    E: Parser<Input = A::Input, Output = A::Output>,
    F: Parser<Input = A::Input, Output = A::Output>,
    G: Parser<Input = A::Input, Output = A::Output>,
    H: Parser<Input = A::Input, Output = A::Output>,
    I: Parser<Input = A::Input, Output = A::Output>,
    J: Parser<Input = A::Input, Output = A::Output>,
>(
    parser: (A, B, C, D, E, F, G, H, I, J),
    after: (A, B, C, D, E, F, G, H, I, J),
    from: StreamState,
    to: StreamState,
    r: Result<A::Output, ParserError>,
    output: A::Output,
)
    ensures
        parser.choice_gets(after, from, to, r) <==> {
            let rest = (
                parser.1,
                parser.2,
                parser.3,
                parser.4,
                parser.5,
                parser.6,
                parser.7,
                parser.8,
                parser.9,
            );
            let rest_after = (
                after.1,
                after.2,
                after.3,
                after.4,
                after.5,
                after.6,
                after.7,
                after.8,
                after.9,
            );
            ||| {
                &&& !is_left(parser::failure(r))
                &&& parser.0.gets(after.0, from, to, r)
                &&& rest_after == rest
            }
            ||| exists|at: StreamState, e: ParserError|
                {
                    &&& #[trigger] get_left_by(parser.0, after.0, from, at, e)
                    &&& rest.choice_gets(rest_after, at, to, r)
                }
        },
        <(A, B, C, D, E, F, G, H, I, J)>::choice_held(output) == A::held(output),
{
    let rest = (
        parser.1,
        parser.2,
        parser.3,
        parser.4,
        parser.5,
        parser.6,
        parser.7,
        parser.8,
        parser.9,
    );
    let rest_after = (
        after.1,
        after.2,
        after.3,
        after.4,
        after.5,
        after.6,
        after.7,
        after.8,
        after.9,
    );
    let error = parser::failure(r);
    if parser.choice_gets(after, from, to, r) {
        let (at, last) = choose|at: Seq<StreamState>, last: int|
            {
                &&& #[trigger] choice::decides(at, last, 10, from, to, error)
                &&& choice::get_tried(parser.0, after.0, at[0], at[1], 0, last, r)
                &&& choice::get_tried(parser.1, after.1, at[1], at[2], 1, last, r)
                &&& choice::get_tried(parser.2, after.2, at[2], at[3], 2, last, r)
                &&& choice::get_tried(parser.3, after.3, at[3], at[4], 3, last, r)
                &&& choice::get_tried(parser.4, after.4, at[4], at[5], 4, last, r)
                &&& choice::get_tried(parser.5, after.5, at[5], at[6], 5, last, r)
                &&& choice::get_tried(parser.6, after.6, at[6], at[7], 6, last, r)
                &&& choice::get_tried(parser.7, after.7, at[7], at[8], 7, last, r)
                &&& choice::get_tried(parser.8, after.8, at[8], at[9], 8, last, r)
                &&& choice::get_tried(parser.9, after.9, at[9], at[10], 9, last, r)
            };
        if last > 0 {
            let e = choose|e: ParserError| #[trigger]
                parser.0.gets(after.0, at[0], at[1], Err(e)) && e.mismatch();
            assert(get_left_by(parser.0, after.0, from, at[1], e));
            assert(choice::decides(at.skip(1), last - 1, 9, at[1], to, error));
            assert(rest.choice_gets(rest_after, at[1], to, r));
        }
    }
    if !is_left(error) && parser.0.gets(after.0, from, to, r) && rest_after == rest {
        assert(choice::decides(seq![from, to], 0, 10, from, to, error));
    }
    assert forall|next: StreamState, e: ParserError|
        {
            &&& #[trigger] get_left_by(parser.0, after.0, from, next, e)
            &&& rest.choice_gets(rest_after, next, to, r)
        } implies parser.choice_gets(after, from, to, r) by {
        let (tail, last) = choose|tail: Seq<StreamState>, last: int|
            {
                &&& #[trigger] choice::decides(tail, last, 9, next, to, error)
                &&& choice::get_tried(parser.1, after.1, tail[0], tail[1], 0, last, r)
                &&& choice::get_tried(parser.2, after.2, tail[1], tail[2], 1, last, r)
                &&& choice::get_tried(parser.3, after.3, tail[2], tail[3], 2, last, r)
                &&& choice::get_tried(parser.4, after.4, tail[3], tail[4], 3, last, r)
                &&& choice::get_tried(parser.5, after.5, tail[4], tail[5], 4, last, r)
                &&& choice::get_tried(parser.6, after.6, tail[5], tail[6], 5, last, r)
                &&& choice::get_tried(parser.7, after.7, tail[6], tail[7], 6, last, r)
                &&& choice::get_tried(parser.8, after.8, tail[7], tail[8], 7, last, r)
                &&& choice::get_tried(parser.9, after.9, tail[8], tail[9], 8, last, r)
            };
        assert(recover::get_mismatches(parser.0, after.0, from, next));
        assert(choice::decides(seq![from] + tail, last + 1, 10, from, to, error));
    }
}

/// A choice between ten alternatives can be made where the first one can be applied and leaves the
/// stream where it is if the input does not match it, and a choice between the others can be made
/// from there on.
pub proof fn law_choice_between_ten_is_ready<
    A: Parser,
    B: Parser<Input = A::Input, Output = A::Output>,
    C: Parser<Input = A::Input, Output = A::Output>,
    D: Parser<Input = A::Input, Output = A::Output>,
    E: Parser<Input = A::Input, Output = A::Output>,
    F: Parser<Input = A::Input, Output = A::Output>,
    G: Parser<Input = A::Input, Output = A::Output>,
    H: Parser<Input = A::Input, Output = A::Output>,
    I: Parser<Input = A::Input, Output = A::Output>,
    J: Parser<Input = A::Input, Output = A::Output>,
>(
    parser: (A, B, C, D, E, F, G, H, I, J),
    from: StreamState,
)
    requires
        parser.0.ready(from),
        recover::stays(parser.0, from),
        forall|output: A::Output| #[trigger] B::held(output) == A::held(output),
        ({
            let rest = (
                parser.1,
                parser.2,
                parser.3,
                parser.4,
                parser.5,
                parser.6,
                parser.7,
                parser.8,
                parser.9,
            );
            &&& forall|after: A, at: StreamState, e: ParserError| #[trigger]
                left_by(parser.0, after, from, at, e) ==> rest.choice_ready(at)
            &&& forall|after: A, at: StreamState, e: ParserError| #[trigger]
                get_left_by(parser.0, after, from, at, e) ==> rest.choice_ready(at)
        }),
    ensures
        parser.choice_ready(from),
{
    let rest = (
        parser.1,
        parser.2,
        parser.3,
        parser.4,
        parser.5,
        parser.6,
        parser.7,
        parser.8,
        parser.9,
    );
    assert forall|after: A, at: StreamState| #[trigger]
        recover::mismatches(parser.0, after, from, at) implies rest.choice_ready(at) by {
        let e = choose|e: ParserError| #[trigger]
            parser.0.parses(after, from, at, Some(e)) && e.mismatch();
        assert(left_by(parser.0, after, from, at, e));
    }
    assert forall|after: A, at: StreamState| #[trigger]
        recover::get_mismatches(parser.0, after, from, at) implies rest.choice_ready(at) by {
        let e = choose|e: ParserError| #[trigger]
            parser.0.gets(after, from, at, Err(e)) && e.mismatch();
        assert(get_left_by(parser.0, after, from, at, e));
    }
}

/// Of eleven alternatives, the first one is applied, and the others only if the input does not
/// match it: these do then what a choice between them does.
pub proof fn law_choice_between_eleven<
    A: Parser,
    B: Parser<Input = A::Input, Output = A::Output>,
    C: Parser<Input = A::Input, Output = A::Output>,
    D: Parser<Input = A::Input, Output = A::Output>,
    E: Parser<Input = A::Input, Output = A::Output>,
    F: Parser<Input = A::Input, Output = A::Output>,
    G: Parser<Input = A::Input, Output = A::Output>,
    H: Parser<Input = A::Input, Output = A::Output>,
    I: Parser<Input = A::Input, Output = A::Output>,
    J: Parser<Input = A::Input, Output = A::Output>,
    K: Parser<Input = A::Input, Output = A::Output>,
>(
    parser: (A, B, C, D, E, F, G, H, I, J, K),
    after: (A, B, C, D, E, F, G, H, I, J, K),
    from: StreamState,
    to: StreamState,
    error: Option<ParserError>,
)
    ensures
        parser.choice_parses(after, from, to, error) <==> {
            let rest = (
                parser.1,
                parser.2,
                parser.3,
                parser.4,
                parser.5,
                parser.6,
                parser.7,
                parser.8,
                parser.9,
                parser.10,
            );
            let rest_after = (
                after.1,
                after.2,
                after.3,
                after.4,
                after.5,
                after.6,
                after.7,
                after.8,
                after.9,
                after.10,
            );
            ||| !is_left(error) && parser.0.parses(after.0, from, to, error) && rest_after == rest
            ||| exists|at: StreamState, e: ParserError|
                {
                    &&& #[trigger] left_by(parser.0, after.0, from, at, e)
                    &&& rest.choice_parses(rest_after, at, to, error)
                }
        },
{
    let rest = (
        parser.1,
        parser.2,
        parser.3,
        parser.4,
        parser.5,
        parser.6,
        parser.7,
        parser.8,
        parser.9,
        parser.10,
    );
    let rest_after = (
        after.1,
        after.2,
        after.3,
        after.4,
        after.5,
        after.6,
        after.7,
        after.8,
        after.9,
        after.10,
    );
    if parser.choice_parses(after, from, to, error) {
        let (at, last) = choose|at: Seq<StreamState>, last: int|
            {
                &&& #[trigger] choice::decides(at, last, 11, from, to, error)
                &&& choice::tried(parser.0, after.0, at[0], at[1], 0, last, error)
                &&& choice::tried(parser.1, after.1, at[1], at[2], 1, last, error)
                &&& choice::tried(parser.2, after.2, at[2], at[3], 2, last, error)
                &&& choice::tried(parser.3, after.3, at[3], at[4], 3, last, error)
                &&& choice::tried(parser.4, after.4, at[4], at[5], 4, last, error)
                &&& choice::tried(parser.5, after.5, at[5], at[6], 5, last, error)
                &&& choice::tried(parser.6, after.6, at[6], at[7], 6, last, error)
                &&& choice::tried(parser.7, after.7, at[7], at[8], 7, last, error)
                &&& choice::tried(parser.8, after.8, at[8], at[9], 8, last, error)
                &&& choice::tried(parser.9, after.9, at[9], at[10], 9, last, error)
                &&& choice::tried(parser.10, after.10, at[10], at[11], 10, last, error)
            };
        if last > 0 {
            let e = choose|e: ParserError| #[trigger]
                parser.0.parses(after.0, at[0], at[1], Some(e)) && e.mismatch();
            assert(left_by(parser.0, after.0, from, at[1], e));
            assert(choice::decides(at.skip(1), last - 1, 10, at[1], to, error));
            assert(rest.choice_parses(rest_after, at[1], to, error));
        }
    }
    if !is_left(error) && parser.0.parses(after.0, from, to, error) && rest_after == rest {
        assert(choice::decides(seq![from, to], 0, 11, from, to, error));
    }
    assert forall|next: StreamState, e: ParserError|
        {
            &&& #[trigger] left_by(parser.0, after.0, from, next, e)
            &&& rest.choice_parses(rest_after, next, to, error)
        } implies parser.choice_parses(after, from, to, error) by {
        let (tail, last) = choose|tail: Seq<StreamState>, last: int|
            {
                &&& #[trigger] choice::decides(tail, last, 10, next, to, error)
                &&& choice::tried(parser.1, after.1, tail[0], tail[1], 0, last, error)
                &&& choice::tried(parser.2, after.2, tail[1], tail[2], 1, last, error)
                &&& choice::tried(parser.3, after.3, tail[2], tail[3], 2, last, error)
                &&& choice::tried(parser.4, after.4, tail[3], tail[4], 3, last, error)
                &&& choice::tried(parser.5, after.5, tail[4], tail[5], 4, last, error)
                &&& choice::tried(parser.6, after.6, tail[5], tail[6], 5, last, error)
                &&& choice::tried(parser.7, after.7, tail[6], tail[7], 6, last, error)
                &&& choice::tried(parser.8, after.8, tail[7], tail[8], 7, last, error)
                &&& choice::tried(parser.9, after.9, tail[8], tail[9], 8, last, error)
                &&& choice::tried(parser.10, after.10, tail[9], tail[10], 9, last, error)
            };
        assert(recover::mismatches(parser.0, after.0, from, next));
        assert(choice::decides(seq![from] + tail, last + 1, 11, from, to, error));
    }
}

/// The output of eleven alternatives is that of the first one, or of a choice between the others if
/// the input does not match the first one.
pub proof fn law_choice_between_eleven_gives_first<
    A: Parser,
    B: Parser<Input = A::Input, Output = A::Output>,
    C: Parser<Input = A::Input, Output = A::Output>,
    D: Parser<Input = A::Input, Output = A::Output>,
    E: Parser<Input = A::Input, Output = A::Output>,
    F: Parser<Input = A::Input, Output = A::Output>,
    G: Parser<Input = A::Input, Output = A::Output>,
    H: Parser<Input = A::Input, Output = A::Output>,
    I: Parser<Input = A::Input, Output = A::Output>,
    J: Parser<Input = A::Input, Output = A::Output>,
    K: Parser<Input = A::Input, Output = A::Output>,
>(
    parser: (A, B, C, D, E, F, G, H, I, J, K),
    after: (A, B, C, D, E, F, G, H, I, J, K),
    from: StreamState,
    to: StreamState,
    r: Result<A::Output, ParserError>,
    output: A::Output,
)
    ensures
        parser.choice_gets(after, from, to, r) <==> {
            let rest = (
                parser.1,
                parser.2,
                parser.3,
                parser.4,
                parser.5,
                parser.6,
                parser.7,
                parser.8,
                parser.9,
                parser.10,
            );
            let rest_after = (
                after.1,
                after.2,
                after.3,
                after.4,
                after.5,
                after.6,
                after.7,
                after.8,
                after.9,
                after.10,
            );
            ||| {
                &&& !is_left(parser::failure(r))
                &&& parser.0.gets(after.0, from, to, r)
                &&& rest_after == rest
            }
            ||| exists|at: StreamState, e: ParserError|
                {
                    &&& #[trigger] get_left_by(parser.0, after.0, from, at, e)
                    &&& rest.choice_gets(rest_after, at, to, r)
                }
        },
        <(A, B, C, D, E, F, G, H, I, J, K)>::choice_held(output) == A::held(output),
{
    let rest = (
        parser.1,
        parser.2,
        parser.3,
        parser.4,
        parser.5,
        parser.6,
        parser.7,
        parser.8,
        parser.9,
        parser.10,
    );
    let rest_after = (
        after.1,
        after.2,
        after.3,
        after.4,
        after.5,
        after.6,
        after.7,
        after.8,
        after.9,
        after.10,
    );
    let error = parser::failure(r);
    if parser.choice_gets(after, from, to, r) {
        let (at, last) = choose|at: Seq<StreamState>, last: int|
            {
                &&& #[trigger] choice::decides(at, last, 11, from, to, error)
                &&& choice::get_tried(parser.0, after.0, at[0], at[1], 0, last, r)
                &&& choice::get_tried(parser.1, after.1, at[1], at[2], 1, last, r)
                &&& choice::get_tried(parser.2, after.2, at[2], at[3], 2, last, r)
                &&& choice::get_tried(parser.3, after.3, at[3], at[4], 3, last, r)
                &&& choice::get_tried(parser.4, after.4, at[4], at[5], 4, last, r)
                &&& choice::get_tried(parser.5, after.5, at[5], at[6], 5, last, r)
                &&& choice::get_tried(parser.6, after.6, at[6], at[7], 6, last, r)
                &&& choice::get_tried(parser.7, after.7, at[7], at[8], 7, last, r)
                &&& choice::get_tried(parser.8, after.8, at[8], at[9], 8, last, r)
                &&& choice::get_tried(parser.9, after.9, at[9], at[10], 9, last, r)
                &&& choice::get_tried(parser.10, after.10, at[10], at[11], 10, last, r)
            };
        if last > 0 {
            let e = choose|e: ParserError| #[trigger]
                parser.0.gets(after.0, at[0], at[1], Err(e)) && e.mismatch();
            assert(get_left_by(parser.0, after.0, from, at[1], e));
            assert(choice::decides(at.skip(1), last - 1, 10, at[1], to, error));
            assert(rest.choice_gets(rest_after, at[1], to, r));
        }
    }
    if !is_left(error) && parser.0.gets(after.0, from, to, r) && rest_after == rest {
        assert(choice::decides(seq![from, to], 0, 11, from, to, error));
    }
    assert forall|next: StreamState, e: ParserError|
        {
            &&& #[trigger] get_left_by(parser.0, after.0, from, next, e)
            &&& rest.choice_gets(rest_after, next, to, r)
        } implies parser.choice_gets(after, from, to, r) by {
        let (tail, last) = choose|tail: Seq<StreamState>, last: int|
            {
                &&& #[trigger] choice::decides(tail, last, 10, next, to, error)
                &&& choice::get_tried(parser.1, after.1, tail[0], tail[1], 0, last, r)
                &&& choice::get_tried(parser.2, after.2, tail[1], tail[2], 1, last, r)
                &&& choice::get_tried(parser.3, after.3, tail[2], tail[3], 2, last, r)
                &&& choice::get_tried(parser.4, after.4, tail[3], tail[4], 3, last, r)
                &&& choice::get_tried(parser.5, after.5, tail[4], tail[5], 4, last, r)
                &&& choice::get_tried(parser.6, after.6, tail[5], tail[6], 5, last, r)
                &&& choice::get_tried(parser.7, after.7, tail[6], tail[7], 6, last, r)
                &&& choice::get_tried(parser.8, after.8, tail[7], tail[8], 7, last, r)
                &&& choice::get_tried(parser.9, after.9, tail[8], tail[9], 8, last, r)
                &&& choice::get_tried(parser.10, after.10, tail[9], tail[10], 9, last, r)
            };
        assert(recover::get_mismatches(parser.0, after.0, from, next));
        assert(choice::decides(seq![from] + tail, last + 1, 11, from, to, error));
    }
}

/// A choice between eleven alternatives can be made where the first one can be applied and leaves
/// the stream where it is if the input does not match it, and a choice between the others can be
/// made from there on.
pub proof fn law_choice_between_eleven_is_ready<
    A: Parser,
    B: Parser<Input = A::Input, Output = A::Output>,
    C: Parser<Input = A::Input, Output = A::Output>,
    D: Parser<Input = A::Input, Output = A::Output>,
    E: Parser<Input = A::Input, Output = A::Output>,
    F: Parser<Input = A::Input, Output = A::Output>,
    G: Parser<Input = A::Input, Output = A::Output>,
    H: Parser<Input = A::Input, Output = A::Output>,
    I: Parser<Input = A::Input, Output = A::Output>,
    J: Parser<Input = A::Input, Output = A::Output>,
    K: Parser<Input = A::Input, Output = A::Output>,
>(
    parser: (A, B, C, D, E, F, G, H, I, J, K),
    from: StreamState,
)
    requires
        parser.0.ready(from),
        recover::stays(parser.0, from),
        forall|output: A::Output| #[trigger] B::held(output) == A::held(output),
        ({
            let rest = (
                parser.1,
                parser.2,
                parser.3,
                parser.4,
                parser.5,
                parser.6,
                parser.7,
                parser.8,
                parser.9,
                parser.10,
            );
            &&& forall|after: A, at: StreamState, e: ParserError| #[trigger]
                left_by(parser.0, after, from, at, e) ==> rest.choice_ready(at)
            &&& forall|after: A, at: StreamState, e: ParserError| #[trigger]
                get_left_by(parser.0, after, from, at, e) ==> rest.choice_ready(at)
        }),
    ensures
        parser.choice_ready(from),
{
    let rest = (
        parser.1,
        parser.2,
        parser.3,
        parser.4,
        parser.5,
        parser.6,
        parser.7,
        parser.8,
        parser.9,
        parser.10,
    );
    assert forall|after: A, at: StreamState| #[trigger]
        recover::mismatches(parser.0, after, from, at) implies rest.choice_ready(at) by {
        let e = choose|e: ParserError| #[trigger]
            parser.0.parses(after, from, at, Some(e)) && e.mismatch();
        assert(left_by(parser.0, after, from, at, e));
    }
    assert forall|after: A, at: StreamState| #[trigger]
        recover::get_mismatches(parser.0, after, from, at) implies rest.choice_ready(at) by {
        let e = choose|e: ParserError| #[trigger]
            parser.0.gets(after, from, at, Err(e)) && e.mismatch();
        assert(get_left_by(parser.0, after, from, at, e));
    }
}

/// Of twelve alternatives, the first one is applied, and the others only if the input does not
/// match it: these do then what a choice between them does.
pub proof fn law_choice_between_twelve<
    A: Parser,
    B: Parser<Input = A::Input, Output = A::Output>,
    C: Parser<Input = A::Input, Output = A::Output>,
    D: Parser<Input = A::Input, Output = A::Output>,
    E: Parser<Input = A::Input, Output = A::Output>,
    F: Parser<Input = A::Input, Output = A::Output>,
    G: Parser<Input = A::Input, Output = A::Output>,
    H: Parser<Input = A::Input, Output = A::Output>,
    I: Parser<Input = A::Input, Output = A::Output>,
    J: Parser<Input = A::Input, Output = A::Output>,
    K: Parser<Input = A::Input, Output = A::Output>,
    L: Parser<Input = A::Input, Output = A::Output>,
>(
    parser: (A, B, C, D, E, F, G, H, I, J, K, L),
    after: (A, B, C, D, E, F, G, H, I, J, K, L),
    from: StreamState,
    to: StreamState,
    error: Option<ParserError>,
)
    ensures
        parser.choice_parses(after, from, to, error) <==> {
            let rest = (
                parser.1,
                parser.2,
                parser.3,
                parser.4,
                parser.5,
                parser.6,
                parser.7,
                parser.8,
                parser.9,
                parser.10,
                parser.11,
            );
            let rest_after = (
                after.1,
                after.2,
                after.3,
                after.4,
                after.5,
                after.6,
                after.7,
                after.8,
                after.9,
                after.10,
                after.11,
            );
            ||| !is_left(error) && parser.0.parses(after.0, from, to, error) && rest_after == rest
            ||| exists|at: StreamState, e: ParserError|
                {
                    &&& #[trigger] left_by(parser.0, after.0, from, at, e)
                    &&& rest.choice_parses(rest_after, at, to, error)
                }
        },
{
    let rest = (
        parser.1,
        parser.2,
        parser.3,
        parser.4,
        parser.5,
        parser.6,
        parser.7,
        parser.8,
        parser.9,
        parser.10,
        parser.11,
    );
    let rest_after = (
        after.1,
        after.2,
        after.3,
        after.4,
        after.5,
        after.6,
        after.7,
        after.8,
        after.9,
        after.10,
        after.11,
    );
    if parser.choice_parses(after, from, to, error) {
        let (at, last) = choose|at: Seq<StreamState>, last: int|
            {
                &&& #[trigger] choice::decides(at, last, 12, from, to, error)
                &&& choice::tried(parser.0, after.0, at[0], at[1], 0, last, error)
                &&& choice::tried(parser.1, after.1, at[1], at[2], 1, last, error)
                &&& choice::tried(parser.2, after.2, at[2], at[3], 2, last, error)
                &&& choice::tried(parser.3, after.3, at[3], at[4], 3, last, error)
                &&& choice::tried(parser.4, after.4, at[4], at[5], 4, last, error)
                &&& choice::tried(parser.5, after.5, at[5], at[6], 5, last, error)
                &&& choice::tried(parser.6, after.6, at[6], at[7], 6, last, error)
                &&& choice::tried(parser.7, after.7, at[7], at[8], 7, last, error)
                &&& choice::tried(parser.8, after.8, at[8], at[9], 8, last, error)
                &&& choice::tried(parser.9, after.9, at[9], at[10], 9, last, error)
                &&& choice::tried(parser.10, after.10, at[10], at[11], 10, last, error)
                &&& choice::tried(parser.11, after.11, at[11], at[12], 11, last, error)
            };
        if last > 0 {
            let e = choose|e: ParserError| #[trigger]
                parser.0.parses(after.0, at[0], at[1], Some(e)) && e.mismatch();
            assert(left_by(parser.0, after.0, from, at[1], e));
            assert(choice::decides(at.skip(1), last - 1, 11, at[1], to, error));
            assert(rest.choice_parses(rest_after, at[1], to, error));
        }
    }
    if !is_left(error) && parser.0.parses(after.0, from, to, error) && rest_after == rest {
        assert(choice::decides(seq![from, to], 0, 12, from, to, error));
    }
    assert forall|next: StreamState, e: ParserError|
        {
            &&& #[trigger] left_by(parser.0, after.0, from, next, e)
            &&& rest.choice_parses(rest_after, next, to, error)
        } implies parser.choice_parses(after, from, to, error) by {
        let (tail, last) = choose|tail: Seq<StreamState>, last: int|
            {
                &&& #[trigger] choice::decides(tail, last, 11, next, to, error)
                &&& choice::tried(parser.1, after.1, tail[0], tail[1], 0, last, error)
                &&& choice::tried(parser.2, after.2, tail[1], tail[2], 1, last, error)
                &&& choice::tried(parser.3, after.3, tail[2], tail[3], 2, last, error)
                &&& choice::tried(parser.4, after.4, tail[3], tail[4], 3, last, error)
                &&& choice::tried(parser.5, after.5, tail[4], tail[5], 4, last, error)
                &&& choice::tried(parser.6, after.6, tail[5], tail[6], 5, last, error)
                &&& choice::tried(parser.7, after.7, tail[6], tail[7], 6, last, error)
                &&& choice::tried(parser.8, after.8, tail[7], tail[8], 7, last, error)
                &&& choice::tried(parser.9, after.9, tail[8], tail[9], 8, last, error)
                &&& choice::tried(parser.10, after.10, tail[9], tail[10], 9, last, error)
                &&& choice::tried(parser.11, after.11, tail[10], tail[11], 10, last, error)
            };
        assert(recover::mismatches(parser.0, after.0, from, next));
        assert(choice::decides(seq![from] + tail, last + 1, 12, from, to, error));
    }
}

/// The output of twelve alternatives is that of the first one, or of a choice between the others if
/// the input does not match the first one.
pub proof fn law_choice_between_twelve_gives_first<
    A: Parser,
    B: Parser<Input = A::Input, Output = A::Output>,
    C: Parser<Input = A::Input, Output = A::Output>,
    D: Parser<Input = A::Input, Output = A::Output>,
    E: Parser<Input = A::Input, Output = A::Output>,
    F: Parser<Input = A::Input, Output = A::Output>,
    G: Parser<Input = A::Input, Output = A::Output>,
    H: Parser<Input = A::Input, Output = A::Output>,
    I: Parser<Input = A::Input, Output = A::Output>,
    J: Parser<Input = A::Input, Output = A::Output>,
    K: Parser<Input = A::Input, Output = A::Output>,
    L: Parser<Input = A::Input, Output = A::Output>,
>(
    parser: (A, B, C, D, E, F, G, H, I, J, K, L),
    after: (A, B, C, D, E, F, G, H, I, J, K, L),
    from: StreamState,
    to: StreamState,
    r: Result<A::Output, ParserError>,
    output: A::Output,
)
    ensures
        parser.choice_gets(after, from, to, r) <==> {
            let rest = (
                parser.1,
                parser.2,
                parser.3,
                parser.4,
                parser.5,
                parser.6,
                parser.7,
                parser.8,
                parser.9,
                parser.10,
                parser.11,
            );
            let rest_after = (
                after.1,
                after.2,
                after.3,
                after.4,
                after.5,
                after.6,
                after.7,
                after.8,
                after.9,
                after.10,
                after.11,
            );
            ||| {
                &&& !is_left(parser::failure(r))
                &&& parser.0.gets(after.0, from, to, r)
                &&& rest_after == rest
            }
            ||| exists|at: StreamState, e: ParserError|
                {
                    &&& #[trigger] get_left_by(parser.0, after.0, from, at, e)
                    &&& rest.choice_gets(rest_after, at, to, r)
                }
        },
        <(A, B, C, D, E, F, G, H, I, J, K, L)>::choice_held(output) == A::held(output),
{
    let rest = (
        parser.1,
        parser.2,
        parser.3,
        parser.4,
        parser.5,
        parser.6,
        parser.7,
        parser.8,
        parser.9,
        parser.10,
        parser.11,
    );
    let rest_after = (
        after.1,
        after.2,
        after.3,
        after.4,
        after.5,
        after.6,
        after.7,
        after.8,
        after.9,
        after.10,
        after.11,
    );
    let error = parser::failure(r);
    if parser.choice_gets(after, from, to, r) {
        let (at, last) = choose|at: Seq<StreamState>, last: int|
            {
                &&& #[trigger] choice::decides(at, last, 12, from, to, error)
                &&& choice::get_tried(parser.0, after.0, at[0], at[1], 0, last, r)
                &&& choice::get_tried(parser.1, after.1, at[1], at[2], 1, last, r)
                &&& choice::get_tried(parser.2, after.2, at[2], at[3], 2, last, r)
                &&& choice::get_tried(parser.3, after.3, at[3], at[4], 3, last, r)
                &&& choice::get_tried(parser.4, after.4, at[4], at[5], 4, last, r)
                &&& choice::get_tried(parser.5, after.5, at[5], at[6], 5, last, r)
                &&& choice::get_tried(parser.6, after.6, at[6], at[7], 6, last, r)
                &&& choice::get_tried(parser.7, after.7, at[7], at[8], 7, last, r)
                &&& choice::get_tried(parser.8, after.8, at[8], at[9], 8, last, r)
                &&& choice::get_tried(parser.9, after.9, at[9], at[10], 9, last, r)
                &&& choice::get_tried(parser.10, after.10, at[10], at[11], 10, last, r)
                &&& choice::get_tried(parser.11, after.11, at[11], at[12], 11, last, r)
            };
        if last > 0 {
            let e = choose|e: ParserError| #[trigger]
                parser.0.gets(after.0, at[0], at[1], Err(e)) && e.mismatch();
            assert(get_left_by(parser.0, after.0, from, at[1], e));
            assert(choice::decides(at.skip(1), last - 1, 11, at[1], to, error));
            assert(rest.choice_gets(rest_after, at[1], to, r));
        }
    }
    if !is_left(error) && parser.0.gets(after.0, from, to, r) && rest_after == rest {
        assert(choice::decides(seq![from, to], 0, 12, from, to, error));
    }
    assert forall|next: StreamState, e: ParserError|
        {
            &&& #[trigger] get_left_by(parser.0, after.0, from, next, e)
            &&& rest.choice_gets(rest_after, next, to, r)
        } implies parser.choice_gets(after, from, to, r) by {
        let (tail, last) = choose|tail: Seq<StreamState>, last: int|
            {
                &&& #[trigger] choice::decides(tail, last, 11, next, to, error)
                &&& choice::get_tried(parser.1, after.1, tail[0], tail[1], 0, last, r)
                &&& choice::get_tried(parser.2, after.2, tail[1], tail[2], 1, last, r)
                &&& choice::get_tried(parser.3, after.3, tail[2], tail[3], 2, last, r)
                &&& choice::get_tried(parser.4, after.4, tail[3], tail[4], 3, last, r)
                &&& choice::get_tried(parser.5, after.5, tail[4], tail[5], 4, last, r)
                &&& choice::get_tried(parser.6, after.6, tail[5], tail[6], 5, last, r)
                &&& choice::get_tried(parser.7, after.7, tail[6], tail[7], 6, last, r)
                &&& choice::get_tried(parser.8, after.8, tail[7], tail[8], 7, last, r)
                &&& choice::get_tried(parser.9, after.9, tail[8], tail[9], 8, last, r)
                &&& choice::get_tried(parser.10, after.10, tail[9], tail[10], 9, last, r)
                &&& choice::get_tried(parser.11, after.11, tail[10], tail[11], 10, last, r)
            };
        assert(recover::get_mismatches(parser.0, after.0, from, next));
        assert(choice::decides(seq![from] + tail, last + 1, 12, from, to, error));
    }
}

/// A choice between twelve alternatives can be made where the first one can be applied and leaves
/// the stream where it is if the input does not match it, and a choice between the others can be
/// made from there on.
pub proof fn law_choice_between_twelve_is_ready<
    A: Parser,
    B: Parser<Input = A::Input, Output = A::Output>,
    C: Parser<Input = A::Input, Output = A::Output>,
    D: Parser<Input = A::Input, Output = A::Output>,
    E: Parser<Input = A::Input, Output = A::Output>,
    F: Parser<Input = A::Input, Output = A::Output>,
    G: Parser<Input = A::Input, Output = A::Output>,
    H: Parser<Input = A::Input, Output = A::Output>,
    I: Parser<Input = A::Input, Output = A::Output>,
    J: Parser<Input = A::Input, Output = A::Output>,
    K: Parser<Input = A::Input, Output = A::Output>,
    L: Parser<Input = A::Input, Output = A::Output>,
>(
    parser: (A, B, C, D, E, F, G, H, I, J, K, L),
    from: StreamState,
)
    requires
        parser.0.ready(from),
        recover::stays(parser.0, from),
        forall|output: A::Output| #[trigger] B::held(output) == A::held(output),
        ({
            let rest = (
                parser.1,
                parser.2,
                parser.3,
                parser.4,
                parser.5,
                parser.6,
                parser.7,
                parser.8,
                parser.9,
                parser.10,
                parser.11,
            );
            &&& forall|after: A, at: StreamState, e: ParserError| #[trigger]
                left_by(parser.0, after, from, at, e) ==> rest.choice_ready(at)
            &&& forall|after: A, at: StreamState, e: ParserError| #[trigger]
                get_left_by(parser.0, after, from, at, e) ==> rest.choice_ready(at)
        }),
    ensures
        parser.choice_ready(from),
{
    let rest = (
        parser.1,
        parser.2,
        parser.3,
        parser.4,
        parser.5,
        parser.6,
        parser.7,
        parser.8,
        parser.9,
        parser.10,
        parser.11,
    );
    assert forall|after: A, at: StreamState| #[trigger]
        recover::mismatches(parser.0, after, from, at) implies rest.choice_ready(at) by {
        let e = choose|e: ParserError| #[trigger]
            parser.0.parses(after, from, at, Some(e)) && e.mismatch();
        assert(left_by(parser.0, after, from, at, e));
    }
    assert forall|after: A, at: StreamState| #[trigger]
        recover::get_mismatches(parser.0, after, from, at) implies rest.choice_ready(at) by {
        let e = choose|e: ParserError| #[trigger]
            parser.0.gets(after, from, at, Err(e)) && e.mismatch();
        assert(get_left_by(parser.0, after, from, at, e));
    }
}

/// Of thirteen alternatives, the first one is applied, and the others only if the input does not
/// match it: these do then what a choice between them does.
pub proof fn law_choice_between_thirteen<
    A: Parser,
    B: Parser<Input = A::Input, Output = A::Output>,
    C: Parser<Input = A::Input, Output = A::Output>,
    D: Parser<Input = A::Input, Output = A::Output>,
    E: Parser<Input = A::Input, Output = A::Output>,
    F: Parser<Input = A::Input, Output = A::Output>,
    G: Parser<Input = A::Input, Output = A::Output>,
    H: Parser<Input = A::Input, Output = A::Output>,
    I: Parser<Input = A::Input, Output = A::Output>,
    J: Parser<Input = A::Input, Output = A::Output>,
    K: Parser<Input = A::Input, Output = A::Output>,
    L: Parser<Input = A::Input, Output = A::Output>,
    M: Parser<Input = A::Input, Output = A::Output>,
>(
    parser: (A, B, C, D, E, F, G, H, I, J, K, L, M),
    after: (A, B, C, D, E, F, G, H, I, J, K, L, M),
    from: StreamState,
    to: StreamState,
    error: Option<ParserError>,
)
    ensures
        parser.choice_parses(after, from, to, error) <==> {
            let rest = (
                parser.1,
                parser.2,
                parser.3,
                parser.4,
                parser.5,
                parser.6,
                parser.7,
                parser.8,
                parser.9,
                parser.10,
                parser.11,
                parser.12,
            );
            let rest_after = (
                after.1,
                after.2,
                after.3,
                after.4,
                after.5,
                after.6,
                after.7,
                after.8,
                after.9,
                after.10,
                after.11,
                after.12,
            );
            ||| !is_left(error) && parser.0.parses(after.0, from, to, error) && rest_after == rest
            ||| exists|at: StreamState, e: ParserError|
                {
                    &&& #[trigger] left_by(parser.0, after.0, from, at, e)
                    &&& rest.choice_parses(rest_after, at, to, error)
                }
        },
{
    let rest = (
        parser.1,
        parser.2,
        parser.3,
        parser.4,
        parser.5,
        parser.6,
        parser.7,
        parser.8,
        parser.9,
        parser.10,
        parser.11,
        parser.12,
    );
    let rest_after = (
        after.1,
        after.2,
        after.3,
        after.4,
        after.5,
        after.6,
        after.7,
        after.8,
        after.9,
        after.10,
        after.11,
        after.12,
    );
    if parser.choice_parses(after, from, to, error) {
        let (at, last) = choose|at: Seq<StreamState>, last: int|
            {
                &&& #[trigger] choice::decides(at, last, 13, from, to, error)
                &&& choice::tried(parser.0, after.0, at[0], at[1], 0, last, error)
                &&& choice::tried(parser.1, after.1, at[1], at[2], 1, last, error)
                &&& choice::tried(parser.2, after.2, at[2], at[3], 2, last, error)
                &&& choice::tried(parser.3, after.3, at[3], at[4], 3, last, error)
                &&& choice::tried(parser.4, after.4, at[4], at[5], 4, last, error)
                &&& choice::tried(parser.5, after.5, at[5], at[6], 5, last, error)
                &&& choice::tried(parser.6, after.6, at[6], at[7], 6, last, error)
                &&& choice::tried(parser.7, after.7, at[7], at[8], 7, last, error)
                &&& choice::tried(parser.8, after.8, at[8], at[9], 8, last, error)
                &&& choice::tried(parser.9, after.9, at[9], at[10], 9, last, error)
                &&& choice::tried(parser.10, after.10, at[10], at[11], 10, last, error)
                &&& choice::tried(parser.11, after.11, at[11], at[12], 11, last, error)
                &&& choice::tried(parser.12, after.12, at[12], at[13], 12, last, error)
            };
        if last > 0 {
            let e = choose|e: ParserError| #[trigger]
                parser.0.parses(after.0, at[0], at[1], Some(e)) && e.mismatch();
            assert(left_by(parser.0, after.0, from, at[1], e));
            assert(choice::decides(at.skip(1), last - 1, 12, at[1], to, error));
            assert(rest.choice_parses(rest_after, at[1], to, error));
        }
    }
    if !is_left(error) && parser.0.parses(after.0, from, to, error) && rest_after == rest {
        assert(choice::decides(seq![from, to], 0, 13, from, to, error));
    }
    assert forall|next: StreamState, e: ParserError|
        {
            &&& #[trigger] left_by(parser.0, after.0, from, next, e)
            &&& rest.choice_parses(rest_after, next, to, error)
        } implies parser.choice_parses(after, from, to, error) by {
        let (tail, last) = choose|tail: Seq<StreamState>, last: int|
            {
                &&& #[trigger] choice::decides(tail, last, 12, next, to, error)
                &&& choice::tried(parser.1, after.1, tail[0], tail[1], 0, last, error)
                &&& choice::tried(parser.2, after.2, tail[1], tail[2], 1, last, error)
                &&& choice::tried(parser.3, after.3, tail[2], tail[3], 2, last, error)
                &&& choice::tried(parser.4, after.4, tail[3], tail[4], 3, last, error)
                &&& choice::tried(parser.5, after.5, tail[4], tail[5], 4, last, error)
                &&& choice::tried(parser.6, after.6, tail[5], tail[6], 5, last, error)
                &&& choice::tried(parser.7, after.7, tail[6], tail[7], 6, last, error)
                &&& choice::tried(parser.8, after.8, tail[7], tail[8], 7, last, error)
                &&& choice::tried(parser.9, after.9, tail[8], tail[9], 8, last, error)
                &&& choice::tried(parser.10, after.10, tail[9], tail[10], 9, last, error)
                &&& choice::tried(parser.11, after.11, tail[10], tail[11], 10, last, error)
                &&& choice::tried(parser.12, after.12, tail[11], tail[12], 11, last, error)
            };
        assert(recover::mismatches(parser.0, after.0, from, next));
        assert(choice::decides(seq![from] + tail, last + 1, 13, from, to, error));
    }
}

/// The output of thirteen alternatives is that of the first one, or of a choice between the others
/// if the input does not match the first one.
pub proof fn law_choice_between_thirteen_gives_first<
    A: Parser,
    B: Parser<Input = A::Input, Output = A::Output>,
    C: Parser<Input = A::Input, Output = A::Output>,
    D: Parser<Input = A::Input, Output = A::Output>,
    E: Parser<Input = A::Input, Output = A::Output>,
    F: Parser<Input = A::Input, Output = A::Output>,
    G: Parser<Input = A::Input, Output = A::Output>,
    H: Parser<Input = A::Input, Output = A::Output>,
    I: Parser<Input = A::Input, Output = A::Output>,
    J: Parser<Input = A::Input, Output = A::Output>,
    K: Parser<Input = A::Input, Output = A::Output>,
    L: Parser<Input = A::Input, Output = A::Output>,
    M: Parser<Input = A::Input, Output = A::Output>,
>(
    parser: (A, B, C, D, E, F, G, H, I, J, K, L, M),
    after: (A, B, C, D, E, F, G, H, I, J, K, L, M),
    from: StreamState,
    to: StreamState,
    r: Result<A::Output, ParserError>,
    output: A::Output,
)
    ensures
        parser.choice_gets(after, from, to, r) <==> {
            let rest = (
                parser.1,
                parser.2,
                parser.3,
                parser.4,
                parser.5,
                parser.6,
                parser.7,
                parser.8,
                parser.9,
                parser.10,
                parser.11,
                parser.12,
            );
            let rest_after = (
                after.1,
                after.2,
                after.3,
                after.4,
                after.5,
                after.6,
                after.7,
                after.8,
                after.9,
                after.10,
                after.11,
                after.12,
            );
            ||| {
                &&& !is_left(parser::failure(r))
                &&& parser.0.gets(after.0, from, to, r)
                &&& rest_after == rest
            }
            ||| exists|at: StreamState, e: ParserError|
                {
                    &&& #[trigger] get_left_by(parser.0, after.0, from, at, e)
                    &&& rest.choice_gets(rest_after, at, to, r)
                }
        },
        <(A, B, C, D, E, F, G, H, I, J, K, L, M)>::choice_held(output) == A::held(output),
{
    let rest = (
        parser.1,
        parser.2,
        parser.3,
        parser.4,
        parser.5,
        parser.6,
        parser.7,
        parser.8,
        parser.9,
        parser.10,
        parser.11,
        parser.12,
    );
    let rest_after = (
        after.1,
        after.2,
        after.3,
        after.4,
        after.5,
        after.6,
        after.7,
        after.8,
        after.9,
        after.10,
        after.11,
        after.12,
    );
    let error = parser::failure(r);
    if parser.choice_gets(after, from, to, r) {
        let (at, last) = choose|at: Seq<StreamState>, last: int|
            {
                &&& #[trigger] choice::decides(at, last, 13, from, to, error)
                &&& choice::get_tried(parser.0, after.0, at[0], at[1], 0, last, r)
                &&& choice::get_tried(parser.1, after.1, at[1], at[2], 1, last, r)
                &&& choice::get_tried(parser.2, after.2, at[2], at[3], 2, last, r)
                &&& choice::get_tried(parser.3, after.3, at[3], at[4], 3, last, r)
                &&& choice::get_tried(parser.4, after.4, at[4], at[5], 4, last, r)
                &&& choice::get_tried(parser.5, after.5, at[5], at[6], 5, last, r)
                &&& choice::get_tried(parser.6, after.6, at[6], at[7], 6, last, r)
                &&& choice::get_tried(parser.7, after.7, at[7], at[8], 7, last, r)
                &&& choice::get_tried(parser.8, after.8, at[8], at[9], 8, last, r)
                &&& choice::get_tried(parser.9, after.9, at[9], at[10], 9, last, r)
                &&& choice::get_tried(parser.10, after.10, at[10], at[11], 10, last, r)
                &&& choice::get_tried(parser.11, after.11, at[11], at[12], 11, last, r)
                &&& choice::get_tried(parser.12, after.12, at[12], at[13], 12, last, r)
            };
        if last > 0 {
            let e = choose|e: ParserError| #[trigger]
                parser.0.gets(after.0, at[0], at[1], Err(e)) && e.mismatch();
            assert(get_left_by(parser.0, after.0, from, at[1], e));
            assert(choice::decides(at.skip(1), last - 1, 12, at[1], to, error));
            assert(rest.choice_gets(rest_after, at[1], to, r));
        }
    }
    if !is_left(error) && parser.0.gets(after.0, from, to, r) && rest_after == rest {
        assert(choice::decides(seq![from, to], 0, 13, from, to, error));
    }
    assert forall|next: StreamState, e: ParserError|
        {
            &&& #[trigger] get_left_by(parser.0, after.0, from, next, e)
            &&& rest.choice_gets(rest_after, next, to, r)
        } implies parser.choice_gets(after, from, to, r) by {
        let (tail, last) = choose|tail: Seq<StreamState>, last: int|
            {
                &&& #[trigger] choice::decides(tail, last, 12, next, to, error)
                &&& choice::get_tried(parser.1, after.1, tail[0], tail[1], 0, last, r)
                &&& choice::get_tried(parser.2, after.2, tail[1], tail[2], 1, last, r)
                &&& choice::get_tried(parser.3, after.3, tail[2], tail[3], 2, last, r)
                &&& choice::get_tried(parser.4, after.4, tail[3], tail[4], 3, last, r)
                &&& choice::get_tried(parser.5, after.5, tail[4], tail[5], 4, last, r)
                &&& choice::get_tried(parser.6, after.6, tail[5], tail[6], 5, last, r)
                &&& choice::get_tried(parser.7, after.7, tail[6], tail[7], 6, last, r)
                &&& choice::get_tried(parser.8, after.8, tail[7], tail[8], 7, last, r)
                &&& choice::get_tried(parser.9, after.9, tail[8], tail[9], 8, last, r)
                &&& choice::get_tried(parser.10, after.10, tail[9], tail[10], 9, last, r)
                &&& choice::get_tried(parser.11, after.11, tail[10], tail[11], 10, last, r)
                &&& choice::get_tried(parser.12, after.12, tail[11], tail[12], 11, last, r)
            };
        assert(recover::get_mismatches(parser.0, after.0, from, next));
        assert(choice::decides(seq![from] + tail, last + 1, 13, from, to, error));
    }
}

/// A choice between thirteen alternatives can be made where the first one can be applied and leaves
/// the stream where it is if the input does not match it, and a choice between the others can be
/// made from there on.
pub proof fn law_choice_between_thirteen_is_ready<
    A: Parser,
    B: Parser<Input = A::Input, Output = A::Output>,
    C: Parser<Input = A::Input, Output = A::Output>,
    D: Parser<Input = A::Input, Output = A::Output>,
    E: Parser<Input = A::Input, Output = A::Output>,
    F: Parser<Input = A::Input, Output = A::Output>,
    G: Parser<Input = A::Input, Output = A::Output>,
    H: Parser<Input = A::Input, Output = A::Output>,
    I: Parser<Input = A::Input, Output = A::Output>,
    J: Parser<Input = A::Input, Output = A::Output>,
    K: Parser<Input = A::Input, Output = A::Output>,
    L: Parser<Input = A::Input, Output = A::Output>,
    M: Parser<Input = A::Input, Output = A::Output>,
>(
    parser: (A, B, C, D, E, F, G, H, I, J, K, L, M),
    from: StreamState,
)
    requires
        parser.0.ready(from),
        recover::stays(parser.0, from),
        forall|output: A::Output| #[trigger] B::held(output) == A::held(output),
        ({
            let rest = (
                parser.1,
                parser.2,
                parser.3,
                parser.4,
                parser.5,
                parser.6,
                parser.7,
                parser.8,
                parser.9,
                parser.10,
                parser.11,
                parser.12,
            );
            &&& forall|after: A, at: StreamState, e: ParserError| #[trigger]
                left_by(parser.0, after, from, at, e) ==> rest.choice_ready(at)
            &&& forall|after: A, at: StreamState, e: ParserError| #[trigger]
                get_left_by(parser.0, after, from, at, e) ==> rest.choice_ready(at)
        }),
    ensures
        parser.choice_ready(from),
{
    let rest = (
        parser.1,
        parser.2,
        parser.3,
        parser.4,
        parser.5,
        parser.6,
        parser.7,
        parser.8,
        parser.9,
        parser.10,
        parser.11,
        parser.12,
    );
    assert forall|after: A, at: StreamState| #[trigger]
        recover::mismatches(parser.0, after, from, at) implies rest.choice_ready(at) by {
        let e = choose|e: ParserError| #[trigger]
            parser.0.parses(after, from, at, Some(e)) && e.mismatch();
        assert(left_by(parser.0, after, from, at, e));
    }
    assert forall|after: A, at: StreamState| #[trigger]
        recover::get_mismatches(parser.0, after, from, at) implies rest.choice_ready(at) by {
        let e = choose|e: ParserError| #[trigger]
            parser.0.gets(after, from, at, Err(e)) && e.mismatch();
        assert(get_left_by(parser.0, after, from, at, e));
    }
}

/// Of fourteen alternatives, the first one is applied, and the others only if the input does not
/// match it: these do then what a choice between them does.
pub proof fn law_choice_between_fourteen<
    A: Parser,
    B: Parser<Input = A::Input, Output = A::Output>,
    C: Parser<Input = A::Input, Output = A::Output>,
    D: Parser<Input = A::Input, Output = A::Output>,
    E: Parser<Input = A::Input, Output = A::Output>,
    F: Parser<Input = A::Input, Output = A::Output>,
    G: Parser<Input = A::Input, Output = A::Output>,
    H: Parser<Input = A::Input, Output = A::Output>,
    I: Parser<Input = A::Input, Output = A::Output>,
    J: Parser<Input = A::Input, Output = A::Output>,
    K: Parser<Input = A::Input, Output = A::Output>,
    L: Parser<Input = A::Input, Output = A::Output>,
    M: Parser<Input = A::Input, Output = A::Output>,
    N: Parser<Input = A::Input, Output = A::Output>,
>(
    parser: (A, B, C, D, E, F, G, H, I, J, K, L, M, N),
    after: (A, B, C, D, E, F, G, H, I, J, K, L, M, N),
    from: StreamState,
    to: StreamState,
    error: Option<ParserError>,
)
    ensures
        parser.choice_parses(after, from, to, error) <==> {
            let rest = (
                parser.1,
                parser.2,
                parser.3,
                parser.4,
                parser.5,
                parser.6,
                parser.7,
                parser.8,
                parser.9,
                parser.10,
                parser.11,
                parser.12,
                parser.13,
            );
            let rest_after = (
                after.1,
                after.2,
                after.3,
                after.4,
                after.5,
                after.6,
                after.7,
                after.8,
                after.9,
                after.10,
                after.11,
                after.12,
                after.13,
            );
            ||| !is_left(error) && parser.0.parses(after.0, from, to, error) && rest_after == rest
            ||| exists|at: StreamState, e: ParserError|
                {
                    &&& #[trigger] left_by(parser.0, after.0, from, at, e)
                    &&& rest.choice_parses(rest_after, at, to, error)
                }
        },
{
    let rest = (
        parser.1,
        parser.2,
        parser.3,
        parser.4,
        parser.5,
        parser.6,
        parser.7,
        parser.8,
        parser.9,
        parser.10,
        parser.11,
        parser.12,
        parser.13,
    );
    let rest_after = (
        after.1,
        after.2,
        after.3,
        after.4,
        after.5,
        after.6,
        after.7,
        after.8,
        after.9,
        after.10,
        after.11,
        after.12,
        after.13,
    );
    if parser.choice_parses(after, from, to, error) {
        let (at, last) = choose|at: Seq<StreamState>, last: int|
            {
                &&& #[trigger] choice::decides(at, last, 14, from, to, error)
                &&& choice::tried(parser.0, after.0, at[0], at[1], 0, last, error)
                &&& choice::tried(parser.1, after.1, at[1], at[2], 1, last, error)
                &&& choice::tried(parser.2, after.2, at[2], at[3], 2, last, error)
                &&& choice::tried(parser.3, after.3, at[3], at[4], 3, last, error)
                &&& choice::tried(parser.4, after.4, at[4], at[5], 4, last, error)
                &&& choice::tried(parser.5, after.5, at[5], at[6], 5, last, error)
                &&& choice::tried(parser.6, after.6, at[6], at[7], 6, last, error)
                &&& choice::tried(parser.7, after.7, at[7], at[8], 7, last, error)
                &&& choice::tried(parser.8, after.8, at[8], at[9], 8, last, error)
                &&& choice::tried(parser.9, after.9, at[9], at[10], 9, last, error)
                &&& choice::tried(parser.10, after.10, at[10], at[11], 10, last, error)
                &&& choice::tried(parser.11, after.11, at[11], at[12], 11, last, error)
                &&& choice::tried(parser.12, after.12, at[12], at[13], 12, last, error)
                &&& choice::tried(parser.13, after.13, at[13], at[14], 13, last, error)
            };
        if last > 0 {
            let e = choose|e: ParserError| #[trigger]
                parser.0.parses(after.0, at[0], at[1], Some(e)) && e.mismatch();
            assert(left_by(parser.0, after.0, from, at[1], e));
            assert(choice::decides(at.skip(1), last - 1, 13, at[1], to, error));
            assert(rest.choice_parses(rest_after, at[1], to, error));
        }
    }
    if !is_left(error) && parser.0.parses(after.0, from, to, error) && rest_after == rest {
        assert(choice::decides(seq![from, to], 0, 14, from, to, error));
    }
    assert forall|next: StreamState, e: ParserError|
        {
            &&& #[trigger] left_by(parser.0, after.0, from, next, e)
            &&& rest.choice_parses(rest_after, next, to, error)
        } implies parser.choice_parses(after, from, to, error) by {
        let (tail, last) = choose|tail: Seq<StreamState>, last: int|
            {
                &&& #[trigger] choice::decides(tail, last, 13, next, to, error)
                &&& choice::tried(parser.1, after.1, tail[0], tail[1], 0, last, error)
                &&& choice::tried(parser.2, after.2, tail[1], tail[2], 1, last, error)
                &&& choice::tried(parser.3, after.3, tail[2], tail[3], 2, last, error)
                &&& choice::tried(parser.4, after.4, tail[3], tail[4], 3, last, error)
                &&& choice::tried(parser.5, after.5, tail[4], tail[5], 4, last, error)
                &&& choice::tried(parser.6, after.6, tail[5], tail[6], 5, last, error)
                &&& choice::tried(parser.7, after.7, tail[6], tail[7], 6, last, error)
                &&& choice::tried(parser.8, after.8, tail[7], tail[8], 7, last, error)
                &&& choice::tried(parser.9, after.9, tail[8], tail[9], 8, last, error)
                &&& choice::tried(parser.10, after.10, tail[9], tail[10], 9, last, error)
                &&& choice::tried(parser.11, after.11, tail[10], tail[11], 10, last, error)
                &&& choice::tried(parser.12, after.12, tail[11], tail[12], 11, last, error)
                &&& choice::tried(parser.13, after.13, tail[12], tail[13], 12, last, error)
            };
        assert(recover::mismatches(parser.0, after.0, from, next));
        assert(choice::decides(seq![from] + tail, last + 1, 14, from, to, error));
    }
}

/// The output of fourteen alternatives is that of the first one, or of a choice between the others
/// if the input does not match the first one.
pub proof fn law_choice_between_fourteen_gives_first<
    A: Parser,
    B: Parser<Input = A::Input, Output = A::Output>,
    C: Parser<Input = A::Input, Output = A::Output>,
    D: Parser<Input = A::Input, Output = A::Output>,
    E: Parser<Input = A::Input, Output = A::Output>,
    F: Parser<Input = A::Input, Output = A::Output>,
    G: Parser<Input = A::Input, Output = A::Output>,
    H: Parser<Input = A::Input, Output = A::Output>,
    I: Parser<Input = A::Input, Output = A::Output>,
    J: Parser<Input = A::Input, Output = A::Output>,
    K: Parser<Input = A::Input, Output = A::Output>,
    L: Parser<Input = A::Input, Output = A::Output>,
    M: Parser<Input = A::Input, Output = A::Output>,
    N: Parser<Input = A::Input, Output = A::Output>,
>(
    parser: (A, B, C, D, E, F, G, H, I, J, K, L, M, N),
    after: (A, B, C, D, E, F, G, H, I, J, K, L, M, N),
    from: StreamState,
    to: StreamState,
    r: Result<A::Output, ParserError>,
    output: A::Output,
)
    ensures
        parser.choice_gets(after, from, to, r) <==> {
            let rest = (
                parser.1,
                parser.2,
                parser.3,
                parser.4,
                parser.5,
                parser.6,
                parser.7,
                parser.8,
                parser.9,
                parser.10,
                parser.11,
                parser.12,
                parser.13,
            );
            let rest_after = (
                after.1,
                after.2,
                after.3,
                after.4,
                after.5,
                after.6,
                after.7,
                after.8,
                after.9,
                after.10,
                after.11,
                after.12,
                after.13,
            );
            ||| {
                &&& !is_left(parser::failure(r))
                &&& parser.0.gets(after.0, from, to, r)
                &&& rest_after == rest
            }
            ||| exists|at: StreamState, e: ParserError|
                {
                    &&& #[trigger] get_left_by(parser.0, after.0, from, at, e)
                    &&& rest.choice_gets(rest_after, at, to, r)
                }
        },
        <(A, B, C, D, E, F, G, H, I, J, K, L, M, N)>::choice_held(output) == A::held(output),
{
    let rest = (
        parser.1,
        parser.2,
        parser.3,
        parser.4,
        parser.5,
        parser.6,
        parser.7,
        parser.8,
        parser.9,
        parser.10,
        parser.11,
        parser.12,
        parser.13,
    );
    let rest_after = (
        after.1,
        after.2,
        after.3,
        after.4,
        after.5,
        after.6,
        after.7,
        after.8,
        after.9,
        after.10,
        after.11,
        after.12,
        after.13,
    );
    let error = parser::failure(r);
    if parser.choice_gets(after, from, to, r) {
        let (at, last) = choose|at: Seq<StreamState>, last: int|
            {
                &&& #[trigger] choice::decides(at, last, 14, from, to, error)
                &&& choice::get_tried(parser.0, after.0, at[0], at[1], 0, last, r)
                &&& choice::get_tried(parser.1, after.1, at[1], at[2], 1, last, r)
                &&& choice::get_tried(parser.2, after.2, at[2], at[3], 2, last, r)
                &&& choice::get_tried(parser.3, after.3, at[3], at[4], 3, last, r)
                &&& choice::get_tried(parser.4, after.4, at[4], at[5], 4, last, r)
                &&& choice::get_tried(parser.5, after.5, at[5], at[6], 5, last, r)
                &&& choice::get_tried(parser.6, after.6, at[6], at[7], 6, last, r)
                &&& choice::get_tried(parser.7, after.7, at[7], at[8], 7, last, r)
                &&& choice::get_tried(parser.8, after.8, at[8], at[9], 8, last, r)
                &&& choice::get_tried(parser.9, after.9, at[9], at[10], 9, last, r)
                &&& choice::get_tried(parser.10, after.10, at[10], at[11], 10, last, r)
                &&& choice::get_tried(parser.11, after.11, at[11], at[12], 11, last, r)
                &&& choice::get_tried(parser.12, after.12, at[12], at[13], 12, last, r)
                &&& choice::get_tried(parser.13, after.13, at[13], at[14], 13, last, r)
            };
        if last > 0 {
            let e = choose|e: ParserError| #[trigger]
                parser.0.gets(after.0, at[0], at[1], Err(e)) && e.mismatch();
            assert(get_left_by(parser.0, after.0, from, at[1], e));
            assert(choice::decides(at.skip(1), last - 1, 13, at[1], to, error));
            assert(rest.choice_gets(rest_after, at[1], to, r));
        }
    }
    if !is_left(error) && parser.0.gets(after.0, from, to, r) && rest_after == rest {
        assert(choice::decides(seq![from, to], 0, 14, from, to, error));
    }
    assert forall|next: StreamState, e: ParserError|
        {
            &&& #[trigger] get_left_by(parser.0, after.0, from, next, e)
            &&& rest.choice_gets(rest_after, next, to, r)
        } implies parser.choice_gets(after, from, to, r) by {
        let (tail, last) = choose|tail: Seq<StreamState>, last: int|
            {
                &&& #[trigger] choice::decides(tail, last, 13, next, to, error)
                &&& choice::get_tried(parser.1, after.1, tail[0], tail[1], 0, last, r)
                &&& choice::get_tried(parser.2, after.2, tail[1], tail[2], 1, last, r)
                &&& choice::get_tried(parser.3, after.3, tail[2], tail[3], 2, last, r)
                &&& choice::get_tried(parser.4, after.4, tail[3], tail[4], 3, last, r)
                &&& choice::get_tried(parser.5, after.5, tail[4], tail[5], 4, last, r)
                &&& choice::get_tried(parser.6, after.6, tail[5], tail[6], 5, last, r)
                &&& choice::get_tried(parser.7, after.7, tail[6], tail[7], 6, last, r)
                &&& choice::get_tried(parser.8, after.8, tail[7], tail[8], 7, last, r)
                &&& choice::get_tried(parser.9, after.9, tail[8], tail[9], 8, last, r)
                &&& choice::get_tried(parser.10, after.10, tail[9], tail[10], 9, last, r)
                &&& choice::get_tried(parser.11, after.11, tail[10], tail[11], 10, last, r)
                &&& choice::get_tried(parser.12, after.12, tail[11], tail[12], 11, last, r)
                &&& choice::get_tried(parser.13, after.13, tail[12], tail[13], 12, last, r)
            };
        assert(recover::get_mismatches(parser.0, after.0, from, next));
        assert(choice::decides(seq![from] + tail, last + 1, 14, from, to, error));
    }
}

/// A choice between fourteen alternatives can be made where the first one can be applied and leaves
/// the stream where it is if the input does not match it, and a choice between the others can be
/// made from there on.
pub proof fn law_choice_between_fourteen_is_ready<
    A: Parser,
    B: Parser<Input = A::Input, Output = A::Output>,
    C: Parser<Input = A::Input, Output = A::Output>,
    D: Parser<Input = A::Input, Output = A::Output>,
    E: Parser<Input = A::Input, Output = A::Output>,
    F: Parser<Input = A::Input, Output = A::Output>,
    G: Parser<Input = A::Input, Output = A::Output>,
    H: Parser<Input = A::Input, Output = A::Output>,
    I: Parser<Input = A::Input, Output = A::Output>,
    J: Parser<Input = A::Input, Output = A::Output>,
    K: Parser<Input = A::Input, Output = A::Output>,
    L: Parser<Input = A::Input, Output = A::Output>,
    M: Parser<Input = A::Input, Output = A::Output>,
    N: Parser<Input = A::Input, Output = A::Output>,
>(
    parser: (A, B, C, D, E, F, G, H, I, J, K, L, M, N),
    from: StreamState,
)
    requires
        parser.0.ready(from),
        recover::stays(parser.0, from),
        forall|output: A::Output| #[trigger] B::held(output) == A::held(output),
        ({
            let rest = (
                parser.1,
                parser.2,
                parser.3,
                parser.4,
                parser.5,
                parser.6,
                parser.7,
                parser.8,
                parser.9,
                parser.10,
                parser.11,
                parser.12,
                parser.13,
            );
            &&& forall|after: A, at: StreamState, e: ParserError| #[trigger]
                left_by(parser.0, after, from, at, e) ==> rest.choice_ready(at)
            &&& forall|after: A, at: StreamState, e: ParserError| #[trigger]
                get_left_by(parser.0, after, from, at, e) ==> rest.choice_ready(at)
        }),
    ensures
        parser.choice_ready(from),
{
    let rest = (
        parser.1,
        parser.2,
        parser.3,
        parser.4,
        parser.5,
        parser.6,
        parser.7,
        parser.8,
        parser.9,
        parser.10,
        parser.11,
        parser.12,
        parser.13,
    );
    assert forall|after: A, at: StreamState| #[trigger]
        recover::mismatches(parser.0, after, from, at) implies rest.choice_ready(at) by {
        let e = choose|e: ParserError| #[trigger]
            parser.0.parses(after, from, at, Some(e)) && e.mismatch();
        assert(left_by(parser.0, after, from, at, e));
    }
    assert forall|after: A, at: StreamState| #[trigger]
        recover::get_mismatches(parser.0, after, from, at) implies rest.choice_ready(at) by {
        let e = choose|e: ParserError| #[trigger]
            parser.0.gets(after, from, at, Err(e)) && e.mismatch();
        assert(get_left_by(parser.0, after, from, at, e));
    }
}

/// Whether a choice acts alike whether its output is asked for or not, and keeps nothing of the
/// text.
pub open spec fn choice_acts_alike<C: ChoiceParser>() -> bool {
    &&& forall|
        p: C,
        after: C,
        from: StreamState,
        to: StreamState,
        error: Option<ParserError>,
    | #[trigger]
        p.choice_parses(after, from, to, error) ==> to.marks == from.marks
    &&& forall|
        p: C,
        after: C,
        from: StreamState,
        to: StreamState,
        r: Result<C::Output, ParserError>,
    | #[trigger]
        p.choice_gets(after, from, to, r) ==> {
            &&& to.marks == from.marks
            &&& p.choice_parses(after, from, to, parser::failure(r))
        }
}

/// If alternatives act alike together whether their output is asked for or not, so does a choice
/// between them.
pub proof fn law_choice_acts_alike<C: ChoiceParser>()
    requires
        choice_acts_alike::<C>(),
    ensures
        parsers::acts_alike::<Choice<C>>(),
{
}

/// If a parser acts alike whether its output is asked for or not, so it does as the only
/// alternative.
pub proof fn law_choice_between_one_acts_alike<A: Parser>()
    requires
        parsers::acts_alike::<A>(),
    ensures
        choice_acts_alike::<(A,)>(),
{
    assert forall|
        p: (A,),
        after: (A,),
        from: StreamState,
        to: StreamState,
        error: Option<ParserError>,
    | #[trigger]
        p.choice_parses(after, from, to, error) implies to.marks == from.marks by {
        let r: Result<A::Output, ParserError> = Err(arbitrary());
        law_single_alternative_is_applied(p, after, from, to, error, r, arbitrary());
    }
    assert forall|
        p: (A,),
        after: (A,),
        from: StreamState,
        to: StreamState,
        r: Result<A::Output, ParserError>,
    | #[trigger]
        p.choice_gets(after, from, to, r) implies to.marks == from.marks && p.choice_parses(
        after,
        from,
        to,
        parser::failure(r),
    ) by {
        law_single_alternative_is_applied(
            p,
            after,
            from,
            to,
            parser::failure(r),
            r,
            arbitrary(),
        );
    }
}

/// If two parsers act alike whether their outputs are asked for or not, so they do as alternatives.
pub proof fn law_choice_between_two_acts_alike<
    A: Parser,
    B: Parser<Input = A::Input, Output = A::Output>,
>()
    requires
        parsers::acts_alike::<A>(),
        parsers::acts_alike::<B>(),
    ensures
        choice_acts_alike::<(A, B)>(),
{
    law_choice_between_one_acts_alike::<B>();
    assert forall|
        p: (A, B),
        after: (A, B),
        from: StreamState,
        to: StreamState,
        error: Option<ParserError>,
    | #[trigger]
        p.choice_parses(after, from, to, error) implies to.marks == from.marks by {
        law_choice_between_two(p, after, from, to, error);
    }
    assert forall|
        p: (A, B),
        after: (A, B),
        from: StreamState,
        to: StreamState,
        r: Result<A::Output, ParserError>,
    | #[trigger]
        p.choice_gets(after, from, to, r) implies to.marks == from.marks && p.choice_parses(
        after,
        from,
        to,
        parser::failure(r),
    ) by {
        let rest = (p.1,);
        let rest_after = (after.1,);
        law_choice_between_two_gives_first(p, after, from, to, r, arbitrary());
        law_choice_between_two(p, after, from, to, parser::failure(r));
        if exists|at: StreamState, e: ParserError|
            {
                &&& #[trigger] get_left_by(p.0, after.0, from, at, e)
                &&& rest.choice_gets(rest_after, at, to, r)
            } {
            let (at, e) = choose|at: StreamState, e: ParserError|
                {
                    &&& #[trigger] get_left_by(p.0, after.0, from, at, e)
                    &&& rest.choice_gets(rest_after, at, to, r)
                };
            assert(left_by(p.0, after.0, from, at, e));
        }
    }
}

/// If three parsers act alike whether their outputs are asked for or not, so they do as
/// alternatives.
pub proof fn law_choice_between_three_acts_alike<
    A: Parser,
    B: Parser<Input = A::Input, Output = A::Output>,
    C: Parser<Input = A::Input, Output = A::Output>,
>()
    requires
        parsers::acts_alike::<A>(),
        parsers::acts_alike::<B>(),
        parsers::acts_alike::<C>(),
    ensures
        choice_acts_alike::<(A, B, C)>(),
{
    law_choice_between_two_acts_alike::<B, C>();
    assert forall|
        p: (A, B, C),
        after: (A, B, C),
        from: StreamState,
        to: StreamState,
        error: Option<ParserError>,
    | #[trigger]
        p.choice_parses(after, from, to, error) implies to.marks == from.marks by {
        law_choice_between_three(p, after, from, to, error);
    }
    assert forall|
        p: (A, B, C),
        after: (A, B, C),
        from: StreamState,
        to: StreamState,
        r: Result<A::Output, ParserError>,
    | #[trigger]
        p.choice_gets(after, from, to, r) implies to.marks == from.marks && p.choice_parses(
        after,
        from,
        to,
        parser::failure(r),
    ) by {
        let rest = (p.1, p.2);
        let rest_after = (after.1, after.2);
        law_choice_between_three_gives_first(p, after, from, to, r, arbitrary());
        law_choice_between_three(p, after, from, to, parser::failure(r));
        if exists|at: StreamState, e: ParserError|
            {
                &&& #[trigger] get_left_by(p.0, after.0, from, at, e)
                &&& rest.choice_gets(rest_after, at, to, r)
            } {
            let (at, e) = choose|at: StreamState, e: ParserError|
                {
                    &&& #[trigger] get_left_by(p.0, after.0, from, at, e)
                    &&& rest.choice_gets(rest_after, at, to, r)
                };
            assert(left_by(p.0, after.0, from, at, e));
        }
    }
}

/// If four parsers act alike whether their outputs are asked for or not, so they do as
/// alternatives.
pub proof fn law_choice_between_four_acts_alike<
    A: Parser,
    B: Parser<Input = A::Input, Output = A::Output>,
    C: Parser<Input = A::Input, Output = A::Output>,
    D: Parser<Input = A::Input, Output = A::Output>,
>()
    requires
        parsers::acts_alike::<A>(),
        parsers::acts_alike::<B>(),
        parsers::acts_alike::<C>(),
        parsers::acts_alike::<D>(),
    ensures
        choice_acts_alike::<(A, B, C, D)>(),
{
    law_choice_between_three_acts_alike::<B, C, D>();
    assert forall|
        p: (A, B, C, D),
        after: (A, B, C, D),
        from: StreamState,
        to: StreamState,
        error: Option<ParserError>,
    | #[trigger]
        p.choice_parses(after, from, to, error) implies to.marks == from.marks by {
        law_choice_between_four(p, after, from, to, error);
    }
    assert forall|
        p: (A, B, C, D),
        after: (A, B, C, D),
        from: StreamState,
        to: StreamState,
        r: Result<A::Output, ParserError>,
    | #[trigger]
        p.choice_gets(after, from, to, r) implies to.marks == from.marks && p.choice_parses(
        after,
        from,
        to,
        parser::failure(r),
    ) by {
        let rest = (p.1, p.2, p.3);
        let rest_after = (after.1, after.2, after.3);
        law_choice_between_four_gives_first(p, after, from, to, r, arbitrary());
        law_choice_between_four(p, after, from, to, parser::failure(r));
        if exists|at: StreamState, e: ParserError|
            {
                &&& #[trigger] get_left_by(p.0, after.0, from, at, e)
                &&& rest.choice_gets(rest_after, at, to, r)
            } {
            let (at, e) = choose|at: StreamState, e: ParserError|
                {
                    &&& #[trigger] get_left_by(p.0, after.0, from, at, e)
                    &&& rest.choice_gets(rest_after, at, to, r)
                };
            assert(left_by(p.0, after.0, from, at, e));
        }
    }
}

/// If five parsers act alike whether their outputs are asked for or not, so they do as
/// alternatives.
pub proof fn law_choice_between_five_acts_alike<
    A: Parser,
    B: Parser<Input = A::Input, Output = A::Output>,
    C: Parser<Input = A::Input, Output = A::Output>,
    D: Parser<Input = A::Input, Output = A::Output>,
    E: Parser<Input = A::Input, Output = A::Output>,
>()
    requires
        parsers::acts_alike::<A>(),
        parsers::acts_alike::<B>(),
        parsers::acts_alike::<C>(),
        parsers::acts_alike::<D>(),
        parsers::acts_alike::<E>(),
    ensures
        choice_acts_alike::<(A, B, C, D, E)>(),
{
    law_choice_between_four_acts_alike::<B, C, D, E>();
    assert forall|
        p: (A, B, C, D, E),
        after: (A, B, C, D, E),
        from: StreamState,
        to: StreamState,
        error: Option<ParserError>,
    | #[trigger]
        p.choice_parses(after, from, to, error) implies to.marks == from.marks by {
        law_choice_between_five(p, after, from, to, error);
    }
    assert forall|
        p: (A, B, C, D, E),
        after: (A, B, C, D, E),
        from: StreamState,
        to: StreamState,
        r: Result<A::Output, ParserError>,
    | #[trigger]
        p.choice_gets(after, from, to, r) implies to.marks == from.marks && p.choice_parses(
        after,
        from,
        to,
        parser::failure(r),
    ) by {
        let rest = (p.1, p.2, p.3, p.4);
        let rest_after = (after.1, after.2, after.3, after.4);
        law_choice_between_five_gives_first(p, after, from, to, r, arbitrary());
        law_choice_between_five(p, after, from, to, parser::failure(r));
        if exists|at: StreamState, e: ParserError|
            {
                &&& #[trigger] get_left_by(p.0, after.0, from, at, e)
                &&& rest.choice_gets(rest_after, at, to, r)
            } {
            let (at, e) = choose|at: StreamState, e: ParserError|
                {
                    &&& #[trigger] get_left_by(p.0, after.0, from, at, e)
                    &&& rest.choice_gets(rest_after, at, to, r)
                };
            assert(left_by(p.0, after.0, from, at, e));
        }
    }
}

/// If six parsers act alike whether their outputs are asked for or not, so they do as alternatives.
pub proof fn law_choice_between_six_acts_alike<
    A: Parser,
    B: Parser<Input = A::Input, Output = A::Output>,
    C: Parser<Input = A::Input, Output = A::Output>,
    D: Parser<Input = A::Input, Output = A::Output>,
    E: Parser<Input = A::Input, Output = A::Output>,
    F: Parser<Input = A::Input, Output = A::Output>,
>()
    requires
        parsers::acts_alike::<A>(),
        parsers::acts_alike::<B>(),
        parsers::acts_alike::<C>(),
        parsers::acts_alike::<D>(),
        parsers::acts_alike::<E>(),
        parsers::acts_alike::<F>(),
    ensures
        choice_acts_alike::<(A, B, C, D, E, F)>(),
{
    law_choice_between_five_acts_alike::<B, C, D, E, F>();
    assert forall|
        p: (A, B, C, D, E, F),
        after: (A, B, C, D, E, F),
        from: StreamState,
        to: StreamState,
        error: Option<ParserError>,
    | #[trigger]
        p.choice_parses(after, from, to, error) implies to.marks == from.marks by {
        law_choice_between_six(p, after, from, to, error);
    }
    assert forall|
        p: (A, B, C, D, E, F),
        after: (A, B, C, D, E, F),
        from: StreamState,
        to: StreamState,
        r: Result<A::Output, ParserError>,
    | #[trigger]
        p.choice_gets(after, from, to, r) implies to.marks == from.marks && p.choice_parses(
        after,
        from,
        to,
        parser::failure(r),
    ) by {
        let rest = (p.1, p.2, p.3, p.4, p.5);
        let rest_after = (after.1, after.2, after.3, after.4, after.5);
        law_choice_between_six_gives_first(p, after, from, to, r, arbitrary());
        law_choice_between_six(p, after, from, to, parser::failure(r));
        if exists|at: StreamState, e: ParserError|
            {
                &&& #[trigger] get_left_by(p.0, after.0, from, at, e)
                &&& rest.choice_gets(rest_after, at, to, r)
            } {
            let (at, e) = choose|at: StreamState, e: ParserError|
                {
                    &&& #[trigger] get_left_by(p.0, after.0, from, at, e)
                    &&& rest.choice_gets(rest_after, at, to, r)
                };
            assert(left_by(p.0, after.0, from, at, e));
        }
    }
}

/// If seven parsers act alike whether their outputs are asked for or not, so they do as
/// alternatives.
pub proof fn law_choice_between_seven_acts_alike<
    A: Parser,
    B: Parser<Input = A::Input, Output = A::Output>,
    C: Parser<Input = A::Input, Output = A::Output>,
    D: Parser<Input = A::Input, Output = A::Output>,
    E: Parser<Input = A::Input, Output = A::Output>,
    F: Parser<Input = A::Input, Output = A::Output>,
    G: Parser<Input = A::Input, Output = A::Output>,
>()
    requires
        parsers::acts_alike::<A>(),
        parsers::acts_alike::<B>(),
        parsers::acts_alike::<C>(),
        parsers::acts_alike::<D>(),
        parsers::acts_alike::<E>(),
        parsers::acts_alike::<F>(),
        parsers::acts_alike::<G>(),
    ensures
        choice_acts_alike::<(A, B, C, D, E, F, G)>(),
{
    law_choice_between_six_acts_alike::<B, C, D, E, F, G>();
    assert forall|
        p: (A, B, C, D, E, F, G),
        after: (A, B, C, D, E, F, G),
        from: StreamState,
        to: StreamState,
        error: Option<ParserError>,
    | #[trigger]
        p.choice_parses(after, from, to, error) implies to.marks == from.marks by {
        law_choice_between_seven(p, after, from, to, error);
    }
    assert forall|
        p: (A, B, C, D, E, F, G),
        after: (A, B, C, D, E, F, G),
        from: StreamState,
        to: StreamState,
        r: Result<A::Output, ParserError>,
    | #[trigger]
        p.choice_gets(after, from, to, r) implies to.marks == from.marks && p.choice_parses(
        after,
        from,
        to,
        parser::failure(r),
    ) by {
        let rest = (p.1, p.2, p.3, p.4, p.5, p.6);
        let rest_after = (after.1, after.2, after.3, after.4, after.5, after.6);
        law_choice_between_seven_gives_first(p, after, from, to, r, arbitrary());
        law_choice_between_seven(p, after, from, to, parser::failure(r));
        if exists|at: StreamState, e: ParserError|
            {
                &&& #[trigger] get_left_by(p.0, after.0, from, at, e)
                &&& rest.choice_gets(rest_after, at, to, r)
            } {
            let (at, e) = choose|at: StreamState, e: ParserError|
                {
                    &&& #[trigger] get_left_by(p.0, after.0, from, at, e)
                    &&& rest.choice_gets(rest_after, at, to, r)
                };
            assert(left_by(p.0, after.0, from, at, e));
        }
    }
}

/// If eight parsers act alike whether their outputs are asked for or not, so they do as
/// alternatives.
pub proof fn law_choice_between_eight_acts_alike<
    A: Parser,
    B: Parser<Input = A::Input, Output = A::Output>,
    C: Parser<Input = A::Input, Output = A::Output>,
    D: Parser<Input = A::Input, Output = A::Output>,
    E: Parser<Input = A::Input, Output = A::Output>,
    F: Parser<Input = A::Input, Output = A::Output>,
    G: Parser<Input = A::Input, Output = A::Output>,
    H: Parser<Input = A::Input, Output = A::Output>,
>()
    requires
        parsers::acts_alike::<A>(),
        parsers::acts_alike::<B>(),
        parsers::acts_alike::<C>(),
        parsers::acts_alike::<D>(),
        parsers::acts_alike::<E>(),
        parsers::acts_alike::<F>(),
        parsers::acts_alike::<G>(),
        parsers::acts_alike::<H>(),
    ensures
        choice_acts_alike::<(A, B, C, D, E, F, G, H)>(),
{
    law_choice_between_seven_acts_alike::<B, C, D, E, F, G, H>();
    assert forall|
        p: (A, B, C, D, E, F, G, H),
        after: (A, B, C, D, E, F, G, H),
        from: StreamState,
        to: StreamState,
        error: Option<ParserError>,
    | #[trigger]
        p.choice_parses(after, from, to, error) implies to.marks == from.marks by {
        law_choice_between_eight(p, after, from, to, error);
    }
    assert forall|
        p: (A, B, C, D, E, F, G, H),
        after: (A, B, C, D, E, F, G, H),
        from: StreamState,
        to: StreamState,
        r: Result<A::Output, ParserError>,
    | #[trigger]
        p.choice_gets(after, from, to, r) implies to.marks == from.marks && p.choice_parses(
        after,
        from,
        to,
        parser::failure(r),
    ) by {
        let rest = (p.1, p.2, p.3, p.4, p.5, p.6, p.7);
        let rest_after = (after.1, after.2, after.3, after.4, after.5, after.6, after.7);
        law_choice_between_eight_gives_first(p, after, from, to, r, arbitrary());
        law_choice_between_eight(p, after, from, to, parser::failure(r));
        if exists|at: StreamState, e: ParserError|
            {
                &&& #[trigger] get_left_by(p.0, after.0, from, at, e)
                &&& rest.choice_gets(rest_after, at, to, r)
            } {
            let (at, e) = choose|at: StreamState, e: ParserError|
                {
                    &&& #[trigger] get_left_by(p.0, after.0, from, at, e)
                    &&& rest.choice_gets(rest_after, at, to, r)
                };
            assert(left_by(p.0, after.0, from, at, e));
        }
    }
}

/// If nine parsers act alike whether their outputs are asked for or not, so they do as
/// alternatives.
pub proof fn law_choice_between_nine_acts_alike<
    A: Parser,
    B: Parser<Input = A::Input, Output = A::Output>,
    C: Parser<Input = A::Input, Output = A::Output>,
    D: Parser<Input = A::Input, Output = A::Output>,
    E: Parser<Input = A::Input, Output = A::Output>,
    F: Parser<Input = A::Input, Output = A::Output>,
    G: Parser<Input = A::Input, Output = A::Output>,
    H: Parser<Input = A::Input, Output = A::Output>,
    I: Parser<Input = A::Input, Output = A::Output>,
>()
    requires
        parsers::acts_alike::<A>(),
        parsers::acts_alike::<B>(),
        parsers::acts_alike::<C>(),
        parsers::acts_alike::<D>(),
        parsers::acts_alike::<E>(),
        parsers::acts_alike::<F>(),
        parsers::acts_alike::<G>(),
        parsers::acts_alike::<H>(),
        parsers::acts_alike::<I>(),
    ensures
        choice_acts_alike::<(A, B, C, D, E, F, G, H, I)>(),
{
    law_choice_between_eight_acts_alike::<B, C, D, E, F, G, H, I>();
    assert forall|
        p: (A, B, C, D, E, F, G, H, I),
        after: (A, B, C, D, E, F, G, H, I),
        from: StreamState,
        to: StreamState,
        error: Option<ParserError>,
    | #[trigger]
        p.choice_parses(after, from, to, error) implies to.marks == from.marks by {
        law_choice_between_nine(p, after, from, to, error);
    }
    assert forall|
        p: (A, B, C, D, E, F, G, H, I),
        after: (A, B, C, D, E, F, G, H, I),
        from: StreamState,
        to: StreamState,
        r: Result<A::Output, ParserError>,
    | #[trigger]
        p.choice_gets(after, from, to, r) implies to.marks == from.marks && p.choice_parses(
        after,
        from,
        to,
        parser::failure(r),
    ) by {
        let rest = (p.1, p.2, p.3, p.4, p.5, p.6, p.7, p.8);
        let rest_after = (after.1, after.2, after.3, after.4, after.5, after.6, after.7, after.8);
        law_choice_between_nine_gives_first(p, after, from, to, r, arbitrary());
        law_choice_between_nine(p, after, from, to, parser::failure(r));
        if exists|at: StreamState, e: ParserError|
            {
                &&& #[trigger] get_left_by(p.0, after.0, from, at, e)
                &&& rest.choice_gets(rest_after, at, to, r)
            } {
            let (at, e) = choose|at: StreamState, e: ParserError|
                {
                    &&& #[trigger] get_left_by(p.0, after.0, from, at, e)
                    &&& rest.choice_gets(rest_after, at, to, r)
                };
            assert(left_by(p.0, after.0, from, at, e));
        }
    }
}

/// If ten parsers act alike whether their outputs are asked for or not, so they do as alternatives.
pub proof fn law_choice_between_ten_acts_alike<
    A: Parser,
    B: Parser<Input = A::Input, Output = A::Output>,
    C: Parser<Input = A::Input, Output = A::Output>,
    D: Parser<Input = A::Input, Output = A::Output>,
    E: Parser<Input = A::Input, Output = A::Output>,
    F: Parser<Input = A::Input, Output = A::Output>,
    G: Parser<Input = A::Input, Output = A::Output>,
    H: Parser<Input = A::Input, Output = A::Output>,
    I: Parser<Input = A::Input, Output = A::Output>,
    J: Parser<Input = A::Input, Output = A::Output>,
>()
    requires
        parsers::acts_alike::<A>(),
        parsers::acts_alike::<B>(),
        parsers::acts_alike::<C>(),
        parsers::acts_alike::<D>(),
        parsers::acts_alike::<E>(),
        parsers::acts_alike::<F>(),
        parsers::acts_alike::<G>(),
        parsers::acts_alike::<H>(),
        parsers::acts_alike::<I>(),
        parsers::acts_alike::<J>(),
    ensures
        choice_acts_alike::<(A, B, C, D, E, F, G, H, I, J)>(),
{
    law_choice_between_nine_acts_alike::<B, C, D, E, F, G, H, I, J>();
    assert forall|
        p: (A, B, C, D, E, F, G, H, I, J),
        after: (A, B, C, D, E, F, G, H, I, J),
        from: StreamState,
        to: StreamState,
        error: Option<ParserError>,
    | #[trigger]
        p.choice_parses(after, from, to, error) implies to.marks == from.marks by {
        law_choice_between_ten(p, after, from, to, error);
    }
    assert forall|
        p: (A, B, C, D, E, F, G, H, I, J),
        after: (A, B, C, D, E, F, G, H, I, J),
        from: StreamState,
        to: StreamState,
        r: Result<A::Output, ParserError>,
    | #[trigger]
        p.choice_gets(after, from, to, r) implies to.marks == from.marks && p.choice_parses(
        after,
        from,
        to,
        parser::failure(r),
    ) by {
        let rest = (p.1, p.2, p.3, p.4, p.5, p.6, p.7, p.8, p.9);
        let rest_after = (
            after.1,
            after.2,
            after.3,
            after.4,
            after.5,
            after.6,
            after.7,
            after.8,
            after.9,
        );
        law_choice_between_ten_gives_first(p, after, from, to, r, arbitrary());
        law_choice_between_ten(p, after, from, to, parser::failure(r));
        if exists|at: StreamState, e: ParserError|
            {
                &&& #[trigger] get_left_by(p.0, after.0, from, at, e)
                &&& rest.choice_gets(rest_after, at, to, r)
            } {
            let (at, e) = choose|at: StreamState, e: ParserError|
                {
                    &&& #[trigger] get_left_by(p.0, after.0, from, at, e)
                    &&& rest.choice_gets(rest_after, at, to, r)
                };
            assert(left_by(p.0, after.0, from, at, e));
        }
    }
}

/// If eleven parsers act alike whether their outputs are asked for or not, so they do as
/// alternatives.
pub proof fn law_choice_between_eleven_acts_alike<
    A: Parser,
    B: Parser<Input = A::Input, Output = A::Output>,
    C: Parser<Input = A::Input, Output = A::Output>,
    D: Parser<Input = A::Input, Output = A::Output>,
    E: Parser<Input = A::Input, Output = A::Output>,
    F: Parser<Input = A::Input, Output = A::Output>,
    G: Parser<Input = A::Input, Output = A::Output>,
    H: Parser<Input = A::Input, Output = A::Output>,
    I: Parser<Input = A::Input, Output = A::Output>,
    J: Parser<Input = A::Input, Output = A::Output>,
    K: Parser<Input = A::Input, Output = A::Output>,
>()
    requires
        parsers::acts_alike::<A>(),
        parsers::acts_alike::<B>(),
        parsers::acts_alike::<C>(),
        parsers::acts_alike::<D>(),
        parsers::acts_alike::<E>(),
        parsers::acts_alike::<F>(),
        parsers::acts_alike::<G>(),
        parsers::acts_alike::<H>(),
        parsers::acts_alike::<I>(),
        parsers::acts_alike::<J>(),
        parsers::acts_alike::<K>(),
    ensures
        choice_acts_alike::<(A, B, C, D, E, F, G, H, I, J, K)>(),
{
    law_choice_between_ten_acts_alike::<B, C, D, E, F, G, H, I, J, K>();
    assert forall|
        p: (A, B, C, D, E, F, G, H, I, J, K),
        after: (A, B, C, D, E, F, G, H, I, J, K),
        from: StreamState,
        to: StreamState,
        error: Option<ParserError>,
    | #[trigger]
        p.choice_parses(after, from, to, error) implies to.marks == from.marks by {
        law_choice_between_eleven(p, after, from, to, error);
    }
    assert forall|
        p: (A, B, C, D, E, F, G, H, I, J, K),
        after: (A, B, C, D, E, F, G, H, I, J, K),
        from: StreamState,
        to: StreamState,
        r: Result<A::Output, ParserError>,
    | #[trigger]
        p.choice_gets(after, from, to, r) implies to.marks == from.marks && p.choice_parses(
        after,
        from,
        to,
        parser::failure(r),
    ) by {
        let rest = (p.1, p.2, p.3, p.4, p.5, p.6, p.7, p.8, p.9, p.10);
        let rest_after = (
            after.1,
            after.2,
            after.3,
            after.4,
            after.5,
            after.6,
            after.7,
            after.8,
            after.9,
            after.10,
        );
        law_choice_between_eleven_gives_first(p, after, from, to, r, arbitrary());
        law_choice_between_eleven(p, after, from, to, parser::failure(r));
        if exists|at: StreamState, e: ParserError|
            {
                &&& #[trigger] get_left_by(p.0, after.0, from, at, e)
                &&& rest.choice_gets(rest_after, at, to, r)
            } {
            let (at, e) = choose|at: StreamState, e: ParserError|
                {
                    &&& #[trigger] get_left_by(p.0, after.0, from, at, e)
                    &&& rest.choice_gets(rest_after, at, to, r)
                };
            assert(left_by(p.0, after.0, from, at, e));
        }
    }
}

/// If twelve parsers act alike whether their outputs are asked for or not, so they do as
/// alternatives.
pub proof fn law_choice_between_twelve_acts_alike<
    A: Parser,
    B: Parser<Input = A::Input, Output = A::Output>,
    C: Parser<Input = A::Input, Output = A::Output>,
    D: Parser<Input = A::Input, Output = A::Output>,
    E: Parser<Input = A::Input, Output = A::Output>,
    F: Parser<Input = A::Input, Output = A::Output>,
    G: Parser<Input = A::Input, Output = A::Output>,
    H: Parser<Input = A::Input, Output = A::Output>,
    I: Parser<Input = A::Input, Output = A::Output>,
    J: Parser<Input = A::Input, Output = A::Output>,
    K: Parser<Input = A::Input, Output = A::Output>,
    L: Parser<Input = A::Input, Output = A::Output>,
>()
    requires
        parsers::acts_alike::<A>(),
        parsers::acts_alike::<B>(),
        parsers::acts_alike::<C>(),
        parsers::acts_alike::<D>(),
        parsers::acts_alike::<E>(),
        parsers::acts_alike::<F>(),
        parsers::acts_alike::<G>(),
        parsers::acts_alike::<H>(),
        parsers::acts_alike::<I>(),
        parsers::acts_alike::<J>(),
        parsers::acts_alike::<K>(),
        parsers::acts_alike::<L>(),
    ensures
        choice_acts_alike::<(A, B, C, D, E, F, G, H, I, J, K, L)>(),
{
    law_choice_between_eleven_acts_alike::<B, C, D, E, F, G, H, I, J, K, L>();
    assert forall|
        p: (A, B, C, D, E, F, G, H, I, J, K, L),
        after: (A, B, C, D, E, F, G, H, I, J, K, L),
        from: StreamState,
        to: StreamState,
        error: Option<ParserError>,
    | #[trigger]
        p.choice_parses(after, from, to, error) implies to.marks == from.marks by {
        law_choice_between_twelve(p, after, from, to, error);
    }
    assert forall|
        p: (A, B, C, D, E, F, G, H, I, J, K, L),
        after: (A, B, C, D, E, F, G, H, I, J, K, L),
        from: StreamState,
        to: StreamState,
        r: Result<A::Output, ParserError>,
    | #[trigger]
        p.choice_gets(after, from, to, r) implies to.marks == from.marks && p.choice_parses(
        after,
        from,
        to,
        parser::failure(r),
    ) by {
        let rest = (p.1, p.2, p.3, p.4, p.5, p.6, p.7, p.8, p.9, p.10, p.11);
        let rest_after = (
            after.1,
            after.2,
            after.3,
            after.4,
            after.5,
            after.6,
            after.7,
            after.8,
            after.9,
            after.10,
            after.11,
        );
        law_choice_between_twelve_gives_first(p, after, from, to, r, arbitrary());
        law_choice_between_twelve(p, after, from, to, parser::failure(r));
        if exists|at: StreamState, e: ParserError|
            {
                &&& #[trigger] get_left_by(p.0, after.0, from, at, e)
                &&& rest.choice_gets(rest_after, at, to, r)
            } {
            let (at, e) = choose|at: StreamState, e: ParserError|
                {
                    &&& #[trigger] get_left_by(p.0, after.0, from, at, e)
                    &&& rest.choice_gets(rest_after, at, to, r)
                };
            assert(left_by(p.0, after.0, from, at, e));
        }
    }
}

/// If thirteen parsers act alike whether their outputs are asked for or not, so they do as
/// alternatives.
pub proof fn law_choice_between_thirteen_acts_alike<
    A: Parser,
    B: Parser<Input = A::Input, Output = A::Output>,
    C: Parser<Input = A::Input, Output = A::Output>,
    D: Parser<Input = A::Input, Output = A::Output>,
    E: Parser<Input = A::Input, Output = A::Output>,
    F: Parser<Input = A::Input, Output = A::Output>,
    G: Parser<Input = A::Input, Output = A::Output>,
    H: Parser<Input = A::Input, Output = A::Output>,
    I: Parser<Input = A::Input, Output = A::Output>,
    J: Parser<Input = A::Input, Output = A::Output>,
    K: Parser<Input = A::Input, Output = A::Output>,
    L: Parser<Input = A::Input, Output = A::Output>,
    M: Parser<Input = A::Input, Output = A::Output>,
>()
    requires
        parsers::acts_alike::<A>(),
        parsers::acts_alike::<B>(),
        parsers::acts_alike::<C>(),
        parsers::acts_alike::<D>(),
        parsers::acts_alike::<E>(),
        parsers::acts_alike::<F>(),
        parsers::acts_alike::<G>(),
        parsers::acts_alike::<H>(),
        parsers::acts_alike::<I>(),
        parsers::acts_alike::<J>(),
        parsers::acts_alike::<K>(),
        parsers::acts_alike::<L>(),
        parsers::acts_alike::<M>(),
    ensures
        choice_acts_alike::<(A, B, C, D, E, F, G, H, I, J, K, L, M)>(),
{
    law_choice_between_twelve_acts_alike::<B, C, D, E, F, G, H, I, J, K, L, M>();
    assert forall|
        p: (A, B, C, D, E, F, G, H, I, J, K, L, M),
        after: (A, B, C, D, E, F, G, H, I, J, K, L, M),
        from: StreamState,
        to: StreamState,
        error: Option<ParserError>,
    | #[trigger]
        p.choice_parses(after, from, to, error) implies to.marks == from.marks by {
        law_choice_between_thirteen(p, after, from, to, error);
    }
    assert forall|
        p: (A, B, C, D, E, F, G, H, I, J, K, L, M),
        after: (A, B, C, D, E, F, G, H, I, J, K, L, M),
        from: StreamState,
        to: StreamState,
        r: Result<A::Output, ParserError>,
    | #[trigger]
        p.choice_gets(after, from, to, r) implies to.marks == from.marks && p.choice_parses(
        after,
        from,
        to,
        parser::failure(r),
    ) by {
        let rest = (p.1, p.2, p.3, p.4, p.5, p.6, p.7, p.8, p.9, p.10, p.11, p.12);
        let rest_after = (
            after.1,
            after.2,
            after.3,
            after.4,
            after.5,
            after.6,
            after.7,
            after.8,
            after.9,
            after.10,
            after.11,
            after.12,
        );
        law_choice_between_thirteen_gives_first(p, after, from, to, r, arbitrary());
        law_choice_between_thirteen(p, after, from, to, parser::failure(r));
        if exists|at: StreamState, e: ParserError|
            {
                &&& #[trigger] get_left_by(p.0, after.0, from, at, e)
                &&& rest.choice_gets(rest_after, at, to, r)
            } {
            let (at, e) = choose|at: StreamState, e: ParserError|
                {
                    &&& #[trigger] get_left_by(p.0, after.0, from, at, e)
                    &&& rest.choice_gets(rest_after, at, to, r)
                };
            assert(left_by(p.0, after.0, from, at, e));
        }
    }
}

/// If fourteen parsers act alike whether their outputs are asked for or not, so they do as
/// alternatives.
pub proof fn law_choice_between_fourteen_acts_alike<
    A: Parser,
    B: Parser<Input = A::Input, Output = A::Output>,
    C: Parser<Input = A::Input, Output = A::Output>,
    D: Parser<Input = A::Input, Output = A::Output>,
    E: Parser<Input = A::Input, Output = A::Output>,
    F: Parser<Input = A::Input, Output = A::Output>,
    G: Parser<Input = A::Input, Output = A::Output>,
    H: Parser<Input = A::Input, Output = A::Output>,
    I: Parser<Input = A::Input, Output = A::Output>,
    J: Parser<Input = A::Input, Output = A::Output>,
    K: Parser<Input = A::Input, Output = A::Output>,
    L: Parser<Input = A::Input, Output = A::Output>,
    M: Parser<Input = A::Input, Output = A::Output>,
    N: Parser<Input = A::Input, Output = A::Output>,
>()
    requires
        parsers::acts_alike::<A>(),
        parsers::acts_alike::<B>(),
        parsers::acts_alike::<C>(),
        parsers::acts_alike::<D>(),
        parsers::acts_alike::<E>(),
        parsers::acts_alike::<F>(),
        parsers::acts_alike::<G>(),
        parsers::acts_alike::<H>(),
        parsers::acts_alike::<I>(),
        parsers::acts_alike::<J>(),
        parsers::acts_alike::<K>(),
        parsers::acts_alike::<L>(),
        parsers::acts_alike::<M>(),
        parsers::acts_alike::<N>(),
    ensures
        choice_acts_alike::<(A, B, C, D, E, F, G, H, I, J, K, L, M, N)>(),
{
    law_choice_between_thirteen_acts_alike::<B, C, D, E, F, G, H, I, J, K, L, M, N>();
    assert forall|
        p: (A, B, C, D, E, F, G, H, I, J, K, L, M, N),
        after: (A, B, C, D, E, F, G, H, I, J, K, L, M, N),
        from: StreamState,
        to: StreamState,
        error: Option<ParserError>,
    | #[trigger]
        p.choice_parses(after, from, to, error) implies to.marks == from.marks by {
        law_choice_between_fourteen(p, after, from, to, error);
    }
    assert forall|
        p: (A, B, C, D, E, F, G, H, I, J, K, L, M, N),
        after: (A, B, C, D, E, F, G, H, I, J, K, L, M, N),
        from: StreamState,
        to: StreamState,
        r: Result<A::Output, ParserError>,
    | #[trigger]
        p.choice_gets(after, from, to, r) implies to.marks == from.marks && p.choice_parses(
        after,
        from,
        to,
        parser::failure(r),
    ) by {
        let rest = (p.1, p.2, p.3, p.4, p.5, p.6, p.7, p.8, p.9, p.10, p.11, p.12, p.13);
        let rest_after = (
            after.1,
            after.2,
            after.3,
            after.4,
            after.5,
            after.6,
            after.7,
            after.8,
            after.9,
            after.10,
            after.11,
            after.12,
            after.13,
        );
        law_choice_between_fourteen_gives_first(p, after, from, to, r, arbitrary());
        law_choice_between_fourteen(p, after, from, to, parser::failure(r));
        if exists|at: StreamState, e: ParserError|
            {
                &&& #[trigger] get_left_by(p.0, after.0, from, at, e)
                &&& rest.choice_gets(rest_after, at, to, r)
            } {
            let (at, e) = choose|at: StreamState, e: ParserError|
                {
                    &&& #[trigger] get_left_by(p.0, after.0, from, at, e)
                    &&& rest.choice_gets(rest_after, at, to, r)
                };
            assert(left_by(p.0, after.0, from, at, e));
        }
    }
}

} // verus!
