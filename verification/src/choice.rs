//! Choices between parsers.
use crate::errors::ParserError;
use crate::parser;
use crate::parser::Parser;
use crate::recover;
use crate::recover::found_mismatch;
use crate::streamer::{StreamState, Streamer};
use vstd::multiset::Multiset;
use vstd::prelude::*;

verus! {

/// Parsers of which the first one that matches is applied.
pub trait ChoiceParser: Sized {
    /// The type of the stream that the parsers read.
    type Input: Streamer;

    /// The type of the data that all the parsers return.
    type Output;

    /// Whether the parsers can be applied to a stream in the state `from`.
    spec fn choice_ready(&self, from: StreamState) -> bool;

    /// Whether `choice_parse` may turn the parsers into `after` and the state of the stream from
    /// `from` into `to`, and fail with `error`, or succeed if there is none.
    spec fn choice_parses(
        &self,
        after: Self,
        from: StreamState,
        to: StreamState,
        error: Option<ParserError>,
    ) -> bool;

    /// Whether `choice_get` may turn the parsers into `after` and the state of the stream from
    /// `from` into `to`, with the result `r`.
    spec fn choice_gets(
        &self,
        after: Self,
        from: StreamState,
        to: StreamState,
        r: Result<Self::Output, ParserError>,
    ) -> bool;

    /// The positions of the checkpoints that an output holds.
    spec fn choice_held(output: Self::Output) -> Multiset<nat>;

    /// Applies the parsers in order up to the first one that does not find that the input does not
    /// match. If there is none, fails as the last one does.
    fn choice_parse(&mut self, stream: &mut Self::Input) -> (r: Result<(), ParserError>)
        requires
            old(stream).wf(),
            old(self).choice_ready(old(stream)@),
        ensures
            final(stream).wf(),
            final(stream)@.feed == old(stream)@.feed,
            r matches Err(error) ==> error.told_by(final(stream)@.answers),
            final(stream)@.marks == old(stream)@.marks,
            r is Ok ==> old(stream)@.pos <= final(stream)@.pos,
            old(self).choice_parses(*final(self), old(stream)@, final(stream)@, parser::failure(r)),
    ;

    /// Like `choice_parse`, but returns the output of the parser that succeeds.
    fn choice_get(&mut self, stream: &mut Self::Input) -> (r: Result<Self::Output, ParserError>)
        requires
            old(stream).wf(),
            old(self).choice_ready(old(stream)@),
        ensures
            final(stream).wf(),
            final(stream)@.feed == old(stream)@.feed,
            r matches Err(error) ==> error.told_by(final(stream)@.answers),
            r is Ok ==> old(stream)@.pos <= final(stream)@.pos,
            old(self).choice_gets(*final(self), old(stream)@, final(stream)@, r),
            match r {
                Ok(output) => final(stream)@.marks == old(stream)@.marks.add(
                    Self::choice_held(output),
                ),
                Err(_) => final(stream)@.marks == old(stream)@.marks,
            },
    ;

    /// Gives the checkpoints that an output holds back to the stream that it was parsed from.
    fn choice_discard(output: Self::Output, stream: &mut Self::Input)
        requires
            old(stream).wf(),
            Self::choice_held(output).subset_of(old(stream)@.marks),
        ensures
            final(stream).wf(),
            final(stream)@ == old(stream)@.released_all(Self::choice_held(output)),
    ;
}

/// Applies the first of several parsers that matches.
pub struct Choice<C>(C);

impl<C> Choice<C> {
    /// The parsers to choose from.
    pub closed spec fn alternatives(&self) -> C {
        self.0
    }
}

impl<C: ChoiceParser> Parser for Choice<C> {
    type Input = C::Input;

    type Output = C::Output;

    open spec fn ready(&self, from: StreamState) -> bool {
        self.alternatives().choice_ready(from)
    }

    open spec fn parses(
        &self,
        after: Self,
        from: StreamState,
        to: StreamState,
        error: Option<ParserError>,
    ) -> bool {
        self.alternatives().choice_parses(after.alternatives(), from, to, error)
    }

    open spec fn gets(
        &self,
        after: Self,
        from: StreamState,
        to: StreamState,
        r: Result<C::Output, ParserError>,
    ) -> bool {
        self.alternatives().choice_gets(after.alternatives(), from, to, r)
    }

    open spec fn held(output: C::Output) -> Multiset<nat> {
        C::choice_held(output)
    }

    fn parse(&mut self, stream: &mut C::Input) -> (r: Result<(), ParserError>) {
        self.0.choice_parse(stream)
    }

    fn get(&mut self, stream: &mut C::Input) -> (r: Result<C::Output, ParserError>) {
        self.0.choice_get(stream)
    }

    fn discard(output: C::Output, stream: &mut C::Input) {
        C::choice_discard(output, stream)
    }
}

/// Applies the first of the given parsers that matches.
pub fn choice<C: ChoiceParser>(parsers: C) -> (r: Choice<C>)
    ensures
        r.alternatives() == parsers,
{
    Choice(parsers)
}

/// Whether `at` holds the states that a stream goes through, from `from` to `to`, when alternatives
/// out of `count` are applied in order, the alternative `last` is the last one that is applied, and
/// it fails with `error`, or succeeds if there is none.
pub open spec fn decides(
    at: Seq<StreamState>,
    last: int,
    count: int,
    from: StreamState,
    to: StreamState,
    error: Option<ParserError>,
) -> bool {
    &&& 0 <= last < count
    &&& at.len() == last + 2
    &&& at[0] == from
    &&& at[last + 1] == to
    &&& recover::is_mismatch(error) ==> last == count - 1 && to.pos == from.pos
}

/// What the alternative `i` does between the states `from` and `to` when the alternative `last` is
/// the last one that is applied. It is not applied if it comes after that.
pub open spec fn tried<P: Parser>(
    parser: P,
    after: P,
    from: StreamState,
    to: StreamState,
    i: int,
    last: int,
    error: Option<ParserError>,
) -> bool {
    if i < last {
        recover::mismatches(parser, after, from, to)
    } else if i == last {
        parser.parses(after, from, to, error)
    } else {
        after == parser
    }
}

/// Like `tried` when the alternatives return an output.
pub open spec fn get_tried<P: Parser>(
    parser: P,
    after: P,
    from: StreamState,
    to: StreamState,
    i: int,
    last: int,
    r: Result<P::Output, ParserError>,
) -> bool {
    if i < last {
        recover::get_mismatches(parser, after, from, to)
    } else if i == last {
        parser.gets(after, from, to, r)
    } else {
        after == parser
    }
}

/// Whether the parser can be an alternative for a stream in the state `from`.
pub open spec fn eligible<P: Parser>(parser: P, from: StreamState) -> bool {
    parser.ready(from) && recover::stays(parser, from)
}

/// Whether an output holds the same checkpoints whichever of two parsers returned it.
pub open spec fn hold_alike<A: Parser, B: Parser<Output = A::Output>>() -> bool {
    forall|output: A::Output| #[trigger] B::held(output) == A::held(output)
}

/// Leaves no choice.
impl<A: Parser> ChoiceParser for (A,) {
    type Input = A::Input;

    type Output = A::Output;

    open spec fn choice_ready(&self, from: StreamState) -> bool {
        eligible(self.0, from)
    }

    open spec fn choice_parses(
        &self,
        after: Self,
        from: StreamState,
        to: StreamState,
        error: Option<ParserError>,
    ) -> bool {
        exists|at: Seq<StreamState>, last: int|
            {
                &&& #[trigger] decides(at, last, 1, from, to, error)
                &&& tried(self.0, after.0, at[0], at[1], 0, last, error)
            }
    }

    open spec fn choice_gets(
        &self,
        after: Self,
        from: StreamState,
        to: StreamState,
        r: Result<A::Output, ParserError>,
    ) -> bool {
        exists|at: Seq<StreamState>, last: int|
            {
                &&& #[trigger] decides(at, last, 1, from, to, parser::failure(r))
                &&& get_tried(self.0, after.0, at[0], at[1], 0, last, r)
            }
    }

    open spec fn choice_held(output: A::Output) -> Multiset<nat> {
        A::held(output)
    }

    fn choice_parse(&mut self, stream: &mut A::Input) -> (r: Result<(), ParserError>) {
        let ghost from = stream@;
        let ghost at = seq![from];
        let r = self.0.parse(stream);
        let ghost error = parser::failure(r);
        let ghost at = at.push(stream@);
        assert(decides(at, 0, 1, from, stream@, error));
        r
    }

    fn choice_get(&mut self, stream: &mut A::Input) -> (r: Result<A::Output, ParserError>) {
        let ghost from = stream@;
        let ghost at = seq![from];
        let r = self.0.get(stream);
        let ghost error = parser::failure(r);
        let ghost at = at.push(stream@);
        assert(old(self).0.gets(self.0, at[0], at[1], r));
        assert(decides(at, 0, 1, from, stream@, error));
        r
    }

    fn choice_discard(output: A::Output, stream: &mut A::Input) {
        A::discard(output, stream)
    }
}

/// Chooses between two parsers.
impl<A, B> ChoiceParser for (A, B) where
    A: Parser,
    B: Parser<Input = A::Input, Output = A::Output>,
 {
    type Input = A::Input;

    type Output = A::Output;

    open spec fn choice_ready(&self, from: StreamState) -> bool {
        let rest = (self.1,);
        &&& eligible(self.0, from)
        &&& forall|after: A, at: StreamState| #[trigger]
            recover::mismatches(self.0, after, from, at) ==> {
                &&& hold_alike::<A, B>()
                &&& rest.choice_ready(at)
            }
        &&& forall|after: A, at: StreamState| #[trigger]
            recover::get_mismatches(self.0, after, from, at) ==> {
                &&& hold_alike::<A, B>()
                &&& rest.choice_ready(at)
            }
    }

    open spec fn choice_parses(
        &self,
        after: Self,
        from: StreamState,
        to: StreamState,
        error: Option<ParserError>,
    ) -> bool {
        exists|at: Seq<StreamState>, last: int|
            {
                &&& #[trigger] decides(at, last, 2, from, to, error)
                &&& tried(self.0, after.0, at[0], at[1], 0, last, error)
                &&& tried(self.1, after.1, at[1], at[2], 1, last, error)
            }
    }

    open spec fn choice_gets(
        &self,
        after: Self,
        from: StreamState,
        to: StreamState,
        r: Result<A::Output, ParserError>,
    ) -> bool {
        exists|at: Seq<StreamState>, last: int|
            {
                &&& #[trigger] decides(at, last, 2, from, to, parser::failure(r))
                &&& get_tried(self.0, after.0, at[0], at[1], 0, last, r)
                &&& get_tried(self.1, after.1, at[1], at[2], 1, last, r)
            }
    }

    open spec fn choice_held(output: A::Output) -> Multiset<nat> {
        A::held(output)
    }

    fn choice_parse(&mut self, stream: &mut A::Input) -> (r: Result<(), ParserError>) {
        let ghost from = stream@;
        let ghost at = seq![from];
        let r = self.0.parse(stream);
        let ghost error = parser::failure(r);
        let ghost at = at.push(stream@);
        if !found_mismatch(&r) {
            assert(decides(at, 0, 2, from, stream@, error));
            return r;
        }
        assert(recover::mismatches(old(self).0, self.0, at[0], at[1]));
        let r = self.1.parse(stream);
        let ghost error = parser::failure(r);
        let ghost at = at.push(stream@);
        assert(decides(at, 1, 2, from, stream@, error));
        r
    }

    fn choice_get(&mut self, stream: &mut A::Input) -> (r: Result<A::Output, ParserError>) {
        let ghost from = stream@;
        let ghost at = seq![from];
        let r = self.0.get(stream);
        let ghost error = parser::failure(r);
        let ghost at = at.push(stream@);
        assert(old(self).0.gets(self.0, at[0], at[1], r));
        if !found_mismatch(&r) {
            assert(decides(at, 0, 2, from, stream@, error));
            return r;
        }
        assert(recover::get_mismatches(old(self).0, self.0, at[0], at[1]));
        let r = self.1.get(stream);
        let ghost error = parser::failure(r);
        let ghost at = at.push(stream@);
        assert(old(self).1.gets(self.1, at[1], at[2], r));
        assert(decides(at, 1, 2, from, stream@, error));
        r
    }

    fn choice_discard(output: A::Output, stream: &mut A::Input) {
        A::discard(output, stream)
    }
}

/// Chooses between three parsers.
impl<A, B, C> ChoiceParser for (A, B, C) where
    A: Parser,
    B: Parser<Input = A::Input, Output = A::Output>,
    C: Parser<Input = A::Input, Output = A::Output>,
 {
    type Input = A::Input;

    type Output = A::Output;

    open spec fn choice_ready(&self, from: StreamState) -> bool {
        let rest = (self.1, self.2);
        &&& eligible(self.0, from)
        &&& forall|after: A, at: StreamState| #[trigger]
            recover::mismatches(self.0, after, from, at) ==> {
                &&& hold_alike::<A, B>()
                &&& rest.choice_ready(at)
            }
        &&& forall|after: A, at: StreamState| #[trigger]
            recover::get_mismatches(self.0, after, from, at) ==> {
                &&& hold_alike::<A, B>()
                &&& rest.choice_ready(at)
            }
    }

    open spec fn choice_parses(
        &self,
        after: Self,
        from: StreamState,
        to: StreamState,
        error: Option<ParserError>,
    ) -> bool {
        exists|at: Seq<StreamState>, last: int|
            {
                &&& #[trigger] decides(at, last, 3, from, to, error)
                &&& tried(self.0, after.0, at[0], at[1], 0, last, error)
                &&& tried(self.1, after.1, at[1], at[2], 1, last, error)
                &&& tried(self.2, after.2, at[2], at[3], 2, last, error)
            }
    }

    open spec fn choice_gets(
        &self,
        after: Self,
        from: StreamState,
        to: StreamState,
        r: Result<A::Output, ParserError>,
    ) -> bool {
        exists|at: Seq<StreamState>, last: int|
            {
                &&& #[trigger] decides(at, last, 3, from, to, parser::failure(r))
                &&& get_tried(self.0, after.0, at[0], at[1], 0, last, r)
                &&& get_tried(self.1, after.1, at[1], at[2], 1, last, r)
                &&& get_tried(self.2, after.2, at[2], at[3], 2, last, r)
            }
    }

    open spec fn choice_held(output: A::Output) -> Multiset<nat> {
        A::held(output)
    }

    fn choice_parse(&mut self, stream: &mut A::Input) -> (r: Result<(), ParserError>) {
        let ghost from = stream@;
        let ghost at = seq![from];
        let r = self.0.parse(stream);
        let ghost error = parser::failure(r);
        let ghost at = at.push(stream@);
        if !found_mismatch(&r) {
            assert(decides(at, 0, 3, from, stream@, error));
            return r;
        }
        assert(recover::mismatches(old(self).0, self.0, at[0], at[1]));
        let r = self.1.parse(stream);
        let ghost error = parser::failure(r);
        let ghost at = at.push(stream@);
        if !found_mismatch(&r) {
            assert(decides(at, 1, 3, from, stream@, error));
            return r;
        }
        assert(recover::mismatches(old(self).1, self.1, at[1], at[2]));
        let r = self.2.parse(stream);
        let ghost error = parser::failure(r);
        let ghost at = at.push(stream@);
        assert(decides(at, 2, 3, from, stream@, error));
        r
    }

    fn choice_get(&mut self, stream: &mut A::Input) -> (r: Result<A::Output, ParserError>) {
        let ghost from = stream@;
        let ghost at = seq![from];
        let r = self.0.get(stream);
        let ghost error = parser::failure(r);
        let ghost at = at.push(stream@);
        assert(old(self).0.gets(self.0, at[0], at[1], r));
        if !found_mismatch(&r) {
            assert(decides(at, 0, 3, from, stream@, error));
            return r;
        }
        assert(recover::get_mismatches(old(self).0, self.0, at[0], at[1]));
        let r = self.1.get(stream);
        let ghost error = parser::failure(r);
        let ghost at = at.push(stream@);
        assert(old(self).1.gets(self.1, at[1], at[2], r));
        if !found_mismatch(&r) {
            assert(decides(at, 1, 3, from, stream@, error));
            return r;
        }
        assert(recover::get_mismatches(old(self).1, self.1, at[1], at[2]));
        let r = self.2.get(stream);
        let ghost error = parser::failure(r);
        let ghost at = at.push(stream@);
        assert(old(self).2.gets(self.2, at[2], at[3], r));
        assert(decides(at, 2, 3, from, stream@, error));
        r
    }

    fn choice_discard(output: A::Output, stream: &mut A::Input) {
        A::discard(output, stream)
    }
}

/// Chooses between four parsers.
impl<A, B, C, D> ChoiceParser for (A, B, C, D) where
    A: Parser,
    B: Parser<Input = A::Input, Output = A::Output>,
    C: Parser<Input = A::Input, Output = A::Output>,
    D: Parser<Input = A::Input, Output = A::Output>,
 {
    type Input = A::Input;

    type Output = A::Output;

    open spec fn choice_ready(&self, from: StreamState) -> bool {
        let rest = (self.1, self.2, self.3);
        &&& eligible(self.0, from)
        &&& forall|after: A, at: StreamState| #[trigger]
            recover::mismatches(self.0, after, from, at) ==> {
                &&& hold_alike::<A, B>()
                &&& rest.choice_ready(at)
            }
        &&& forall|after: A, at: StreamState| #[trigger]
            recover::get_mismatches(self.0, after, from, at) ==> {
                &&& hold_alike::<A, B>()
                &&& rest.choice_ready(at)
            }
    }

    open spec fn choice_parses(
        &self,
        after: Self,
        from: StreamState,
        to: StreamState,
        error: Option<ParserError>,
    ) -> bool {
        exists|at: Seq<StreamState>, last: int|
            {
                &&& #[trigger] decides(at, last, 4, from, to, error)
                &&& tried(self.0, after.0, at[0], at[1], 0, last, error)
                &&& tried(self.1, after.1, at[1], at[2], 1, last, error)
                &&& tried(self.2, after.2, at[2], at[3], 2, last, error)
                &&& tried(self.3, after.3, at[3], at[4], 3, last, error)
            }
    }

    open spec fn choice_gets(
        &self,
        after: Self,
        from: StreamState,
        to: StreamState,
        r: Result<A::Output, ParserError>,
    ) -> bool {
        exists|at: Seq<StreamState>, last: int|
            {
                &&& #[trigger] decides(at, last, 4, from, to, parser::failure(r))
                &&& get_tried(self.0, after.0, at[0], at[1], 0, last, r)
                &&& get_tried(self.1, after.1, at[1], at[2], 1, last, r)
                &&& get_tried(self.2, after.2, at[2], at[3], 2, last, r)
                &&& get_tried(self.3, after.3, at[3], at[4], 3, last, r)
            }
    }

    open spec fn choice_held(output: A::Output) -> Multiset<nat> {
        A::held(output)
    }

    fn choice_parse(&mut self, stream: &mut A::Input) -> (r: Result<(), ParserError>) {
        let ghost from = stream@;
        let ghost at = seq![from];
        let r = self.0.parse(stream);
        let ghost error = parser::failure(r);
        let ghost at = at.push(stream@);
        if !found_mismatch(&r) {
            assert(decides(at, 0, 4, from, stream@, error));
            return r;
        }
        assert(recover::mismatches(old(self).0, self.0, at[0], at[1]));
        let r = self.1.parse(stream);
        let ghost error = parser::failure(r);
        let ghost at = at.push(stream@);
        if !found_mismatch(&r) {
            assert(decides(at, 1, 4, from, stream@, error));
            return r;
        }
        assert(recover::mismatches(old(self).1, self.1, at[1], at[2]));
        let r = self.2.parse(stream);
        let ghost error = parser::failure(r);
        let ghost at = at.push(stream@);
        if !found_mismatch(&r) {
            assert(decides(at, 2, 4, from, stream@, error));
            return r;
        }
        assert(recover::mismatches(old(self).2, self.2, at[2], at[3]));
        let r = self.3.parse(stream);
        let ghost error = parser::failure(r);
        let ghost at = at.push(stream@);
        assert(decides(at, 3, 4, from, stream@, error));
        r
    }

    fn choice_get(&mut self, stream: &mut A::Input) -> (r: Result<A::Output, ParserError>) {
        let ghost from = stream@;
        let ghost at = seq![from];
        let r = self.0.get(stream);
        let ghost error = parser::failure(r);
        let ghost at = at.push(stream@);
        assert(old(self).0.gets(self.0, at[0], at[1], r));
        if !found_mismatch(&r) {
            assert(decides(at, 0, 4, from, stream@, error));
            return r;
        }
        assert(recover::get_mismatches(old(self).0, self.0, at[0], at[1]));
        let r = self.1.get(stream);
        let ghost error = parser::failure(r);
        let ghost at = at.push(stream@);
        assert(old(self).1.gets(self.1, at[1], at[2], r));
        if !found_mismatch(&r) {
            assert(decides(at, 1, 4, from, stream@, error));
            return r;
        }
        assert(recover::get_mismatches(old(self).1, self.1, at[1], at[2]));
        let r = self.2.get(stream);
        let ghost error = parser::failure(r);
        let ghost at = at.push(stream@);
        assert(old(self).2.gets(self.2, at[2], at[3], r));
        if !found_mismatch(&r) {
            assert(decides(at, 2, 4, from, stream@, error));
            return r;
        }
        assert(recover::get_mismatches(old(self).2, self.2, at[2], at[3]));
        let r = self.3.get(stream);
        let ghost error = parser::failure(r);
        let ghost at = at.push(stream@);
        assert(old(self).3.gets(self.3, at[3], at[4], r));
        assert(decides(at, 3, 4, from, stream@, error));
        r
    }

    fn choice_discard(output: A::Output, stream: &mut A::Input) {
        A::discard(output, stream)
    }
}

/// Chooses between five parsers.
impl<A, B, C, D, E> ChoiceParser for (A, B, C, D, E) where
    A: Parser,
    B: Parser<Input = A::Input, Output = A::Output>,
    C: Parser<Input = A::Input, Output = A::Output>,
    D: Parser<Input = A::Input, Output = A::Output>,
    E: Parser<Input = A::Input, Output = A::Output>,
 {
    type Input = A::Input;

    type Output = A::Output;

    open spec fn choice_ready(&self, from: StreamState) -> bool {
        let rest = (self.1, self.2, self.3, self.4);
        &&& eligible(self.0, from)
        &&& forall|after: A, at: StreamState| #[trigger]
            recover::mismatches(self.0, after, from, at) ==> {
                &&& hold_alike::<A, B>()
                &&& rest.choice_ready(at)
            }
        &&& forall|after: A, at: StreamState| #[trigger]
            recover::get_mismatches(self.0, after, from, at) ==> {
                &&& hold_alike::<A, B>()
                &&& rest.choice_ready(at)
            }
    }

    open spec fn choice_parses(
        &self,
        after: Self,
        from: StreamState,
        to: StreamState,
        error: Option<ParserError>,
    ) -> bool {
        exists|at: Seq<StreamState>, last: int|
            {
                &&& #[trigger] decides(at, last, 5, from, to, error)
                &&& tried(self.0, after.0, at[0], at[1], 0, last, error)
                &&& tried(self.1, after.1, at[1], at[2], 1, last, error)
                &&& tried(self.2, after.2, at[2], at[3], 2, last, error)
                &&& tried(self.3, after.3, at[3], at[4], 3, last, error)
                &&& tried(self.4, after.4, at[4], at[5], 4, last, error)
            }
    }

    open spec fn choice_gets(
        &self,
        after: Self,
        from: StreamState,
        to: StreamState,
        r: Result<A::Output, ParserError>,
    ) -> bool {
        exists|at: Seq<StreamState>, last: int|
            {
                &&& #[trigger] decides(at, last, 5, from, to, parser::failure(r))
                &&& get_tried(self.0, after.0, at[0], at[1], 0, last, r)
                &&& get_tried(self.1, after.1, at[1], at[2], 1, last, r)
                &&& get_tried(self.2, after.2, at[2], at[3], 2, last, r)
                &&& get_tried(self.3, after.3, at[3], at[4], 3, last, r)
                &&& get_tried(self.4, after.4, at[4], at[5], 4, last, r)
            }
    }

    open spec fn choice_held(output: A::Output) -> Multiset<nat> {
        A::held(output)
    }

    fn choice_parse(&mut self, stream: &mut A::Input) -> (r: Result<(), ParserError>) {
        let ghost from = stream@;
        let ghost at = seq![from];
        let r = self.0.parse(stream);
        let ghost error = parser::failure(r);
        let ghost at = at.push(stream@);
        if !found_mismatch(&r) {
            assert(decides(at, 0, 5, from, stream@, error));
            return r;
        }
        assert(recover::mismatches(old(self).0, self.0, at[0], at[1]));
        let r = self.1.parse(stream);
        let ghost error = parser::failure(r);
        let ghost at = at.push(stream@);
        if !found_mismatch(&r) {
            assert(decides(at, 1, 5, from, stream@, error));
            return r;
        }
        assert(recover::mismatches(old(self).1, self.1, at[1], at[2]));
        let r = self.2.parse(stream);
        let ghost error = parser::failure(r);
        let ghost at = at.push(stream@);
        if !found_mismatch(&r) {
            assert(decides(at, 2, 5, from, stream@, error));
            return r;
        }
        assert(recover::mismatches(old(self).2, self.2, at[2], at[3]));
        let r = self.3.parse(stream);
        let ghost error = parser::failure(r);
        let ghost at = at.push(stream@);
        if !found_mismatch(&r) {
            assert(decides(at, 3, 5, from, stream@, error));
            return r;
        }
        assert(recover::mismatches(old(self).3, self.3, at[3], at[4]));
        let r = self.4.parse(stream);
        let ghost error = parser::failure(r);
        let ghost at = at.push(stream@);
        assert(decides(at, 4, 5, from, stream@, error));
        r
    }

    fn choice_get(&mut self, stream: &mut A::Input) -> (r: Result<A::Output, ParserError>) {
        let ghost from = stream@;
        let ghost at = seq![from];
        let r = self.0.get(stream);
        let ghost error = parser::failure(r);
        let ghost at = at.push(stream@);
        assert(old(self).0.gets(self.0, at[0], at[1], r));
        if !found_mismatch(&r) {
            assert(decides(at, 0, 5, from, stream@, error));
            return r;
        }
        assert(recover::get_mismatches(old(self).0, self.0, at[0], at[1]));
        let r = self.1.get(stream);
        let ghost error = parser::failure(r);
        let ghost at = at.push(stream@);
        assert(old(self).1.gets(self.1, at[1], at[2], r));
        if !found_mismatch(&r) {
            assert(decides(at, 1, 5, from, stream@, error));
            return r;
        }
        assert(recover::get_mismatches(old(self).1, self.1, at[1], at[2]));
        let r = self.2.get(stream);
        let ghost error = parser::failure(r);
        let ghost at = at.push(stream@);
        assert(old(self).2.gets(self.2, at[2], at[3], r));
        if !found_mismatch(&r) {
            assert(decides(at, 2, 5, from, stream@, error));
            return r;
        }
        assert(recover::get_mismatches(old(self).2, self.2, at[2], at[3]));
        let r = self.3.get(stream);
        let ghost error = parser::failure(r);
        let ghost at = at.push(stream@);
        assert(old(self).3.gets(self.3, at[3], at[4], r));
        if !found_mismatch(&r) {
            assert(decides(at, 3, 5, from, stream@, error));
            return r;
        }
        assert(recover::get_mismatches(old(self).3, self.3, at[3], at[4]));
        let r = self.4.get(stream);
        let ghost error = parser::failure(r);
        let ghost at = at.push(stream@);
        assert(old(self).4.gets(self.4, at[4], at[5], r));
        assert(decides(at, 4, 5, from, stream@, error));
        r
    }

    fn choice_discard(output: A::Output, stream: &mut A::Input) {
        A::discard(output, stream)
    }
}

/// Chooses between six parsers.
impl<A, B, C, D, E, F> ChoiceParser for (A, B, C, D, E, F) where
    A: Parser,
    B: Parser<Input = A::Input, Output = A::Output>,
    C: Parser<Input = A::Input, Output = A::Output>,
    D: Parser<Input = A::Input, Output = A::Output>,
    E: Parser<Input = A::Input, Output = A::Output>,
    F: Parser<Input = A::Input, Output = A::Output>,
 {
    type Input = A::Input;

    type Output = A::Output;

    open spec fn choice_ready(&self, from: StreamState) -> bool {
        let rest = (self.1, self.2, self.3, self.4, self.5);
        &&& eligible(self.0, from)
        &&& forall|after: A, at: StreamState| #[trigger]
            recover::mismatches(self.0, after, from, at) ==> {
                &&& hold_alike::<A, B>()
                &&& rest.choice_ready(at)
            }
        &&& forall|after: A, at: StreamState| #[trigger]
            recover::get_mismatches(self.0, after, from, at) ==> {
                &&& hold_alike::<A, B>()
                &&& rest.choice_ready(at)
            }
    }

    open spec fn choice_parses(
        &self,
        after: Self,
        from: StreamState,
        to: StreamState,
        error: Option<ParserError>,
    ) -> bool {
        exists|at: Seq<StreamState>, last: int|
            {
                &&& #[trigger] decides(at, last, 6, from, to, error)
                &&& tried(self.0, after.0, at[0], at[1], 0, last, error)
                &&& tried(self.1, after.1, at[1], at[2], 1, last, error)
                &&& tried(self.2, after.2, at[2], at[3], 2, last, error)
                &&& tried(self.3, after.3, at[3], at[4], 3, last, error)
                &&& tried(self.4, after.4, at[4], at[5], 4, last, error)
                &&& tried(self.5, after.5, at[5], at[6], 5, last, error)
            }
    }

    open spec fn choice_gets(
        &self,
        after: Self,
        from: StreamState,
        to: StreamState,
        r: Result<A::Output, ParserError>,
    ) -> bool {
        exists|at: Seq<StreamState>, last: int|
            {
                &&& #[trigger] decides(at, last, 6, from, to, parser::failure(r))
                &&& get_tried(self.0, after.0, at[0], at[1], 0, last, r)
                &&& get_tried(self.1, after.1, at[1], at[2], 1, last, r)
                &&& get_tried(self.2, after.2, at[2], at[3], 2, last, r)
                &&& get_tried(self.3, after.3, at[3], at[4], 3, last, r)
                &&& get_tried(self.4, after.4, at[4], at[5], 4, last, r)
                &&& get_tried(self.5, after.5, at[5], at[6], 5, last, r)
            }
    }

    open spec fn choice_held(output: A::Output) -> Multiset<nat> {
        A::held(output)
    }

    fn choice_parse(&mut self, stream: &mut A::Input) -> (r: Result<(), ParserError>) {
        let ghost from = stream@;
        let ghost at = seq![from];
        let r = self.0.parse(stream);
        let ghost error = parser::failure(r);
        let ghost at = at.push(stream@);
        if !found_mismatch(&r) {
            assert(decides(at, 0, 6, from, stream@, error));
            return r;
        }
        assert(recover::mismatches(old(self).0, self.0, at[0], at[1]));
        let r = self.1.parse(stream);
        let ghost error = parser::failure(r);
        let ghost at = at.push(stream@);
        if !found_mismatch(&r) {
            assert(decides(at, 1, 6, from, stream@, error));
            return r;
        }
        assert(recover::mismatches(old(self).1, self.1, at[1], at[2]));
        let r = self.2.parse(stream);
        let ghost error = parser::failure(r);
        let ghost at = at.push(stream@);
        if !found_mismatch(&r) {
            assert(decides(at, 2, 6, from, stream@, error));
            return r;
        }
        assert(recover::mismatches(old(self).2, self.2, at[2], at[3]));
        let r = self.3.parse(stream);
        let ghost error = parser::failure(r);
        let ghost at = at.push(stream@);
        if !found_mismatch(&r) {
            assert(decides(at, 3, 6, from, stream@, error));
            return r;
        }
        assert(recover::mismatches(old(self).3, self.3, at[3], at[4]));
        let r = self.4.parse(stream);
        let ghost error = parser::failure(r);
        let ghost at = at.push(stream@);
        if !found_mismatch(&r) {
            assert(decides(at, 4, 6, from, stream@, error));
            return r;
        }
        assert(recover::mismatches(old(self).4, self.4, at[4], at[5]));
        let r = self.5.parse(stream);
        let ghost error = parser::failure(r);
        let ghost at = at.push(stream@);
        assert(decides(at, 5, 6, from, stream@, error));
        r
    }

    fn choice_get(&mut self, stream: &mut A::Input) -> (r: Result<A::Output, ParserError>) {
        let ghost from = stream@;
        let ghost at = seq![from];
        let r = self.0.get(stream);
        let ghost error = parser::failure(r);
        let ghost at = at.push(stream@);
        assert(old(self).0.gets(self.0, at[0], at[1], r));
        if !found_mismatch(&r) {
            assert(decides(at, 0, 6, from, stream@, error));
            return r;
        }
        assert(recover::get_mismatches(old(self).0, self.0, at[0], at[1]));
        let r = self.1.get(stream);
        let ghost error = parser::failure(r);
        let ghost at = at.push(stream@);
        assert(old(self).1.gets(self.1, at[1], at[2], r));
        if !found_mismatch(&r) {
            assert(decides(at, 1, 6, from, stream@, error));
            return r;
        }
        assert(recover::get_mismatches(old(self).1, self.1, at[1], at[2]));
        let r = self.2.get(stream);
        let ghost error = parser::failure(r);
        let ghost at = at.push(stream@);
        assert(old(self).2.gets(self.2, at[2], at[3], r));
        if !found_mismatch(&r) {
            assert(decides(at, 2, 6, from, stream@, error));
            return r;
        }
        assert(recover::get_mismatches(old(self).2, self.2, at[2], at[3]));
        let r = self.3.get(stream);
        let ghost error = parser::failure(r);
        let ghost at = at.push(stream@);
        assert(old(self).3.gets(self.3, at[3], at[4], r));
        if !found_mismatch(&r) {
            assert(decides(at, 3, 6, from, stream@, error));
            return r;
        }
        assert(recover::get_mismatches(old(self).3, self.3, at[3], at[4]));
        let r = self.4.get(stream);
        let ghost error = parser::failure(r);
        let ghost at = at.push(stream@);
        assert(old(self).4.gets(self.4, at[4], at[5], r));
        if !found_mismatch(&r) {
            assert(decides(at, 4, 6, from, stream@, error));
            return r;
        }
        assert(recover::get_mismatches(old(self).4, self.4, at[4], at[5]));
        let r = self.5.get(stream);
        let ghost error = parser::failure(r);
        let ghost at = at.push(stream@);
        assert(old(self).5.gets(self.5, at[5], at[6], r));
        assert(decides(at, 5, 6, from, stream@, error));
        r
    }

    fn choice_discard(output: A::Output, stream: &mut A::Input) {
        A::discard(output, stream)
    }
}

/// Chooses between seven parsers.
impl<A, B, C, D, E, F, G> ChoiceParser for (A, B, C, D, E, F, G) where
    A: Parser,
    B: Parser<Input = A::Input, Output = A::Output>,
    C: Parser<Input = A::Input, Output = A::Output>,
    D: Parser<Input = A::Input, Output = A::Output>,
    E: Parser<Input = A::Input, Output = A::Output>,
    F: Parser<Input = A::Input, Output = A::Output>,
    G: Parser<Input = A::Input, Output = A::Output>,
 {
    type Input = A::Input;

    type Output = A::Output;

    open spec fn choice_ready(&self, from: StreamState) -> bool {
        let rest = (self.1, self.2, self.3, self.4, self.5, self.6);
        &&& eligible(self.0, from)
        &&& forall|after: A, at: StreamState| #[trigger]
            recover::mismatches(self.0, after, from, at) ==> {
                &&& hold_alike::<A, B>()
                &&& rest.choice_ready(at)
            }
        &&& forall|after: A, at: StreamState| #[trigger]
            recover::get_mismatches(self.0, after, from, at) ==> {
                &&& hold_alike::<A, B>()
                &&& rest.choice_ready(at)
            }
    }

    open spec fn choice_parses(
        &self,
        after: Self,
        from: StreamState,
        to: StreamState,
        error: Option<ParserError>,
    ) -> bool {
        exists|at: Seq<StreamState>, last: int|
            {
                &&& #[trigger] decides(at, last, 7, from, to, error)
                &&& tried(self.0, after.0, at[0], at[1], 0, last, error)
                &&& tried(self.1, after.1, at[1], at[2], 1, last, error)
                &&& tried(self.2, after.2, at[2], at[3], 2, last, error)
                &&& tried(self.3, after.3, at[3], at[4], 3, last, error)
                &&& tried(self.4, after.4, at[4], at[5], 4, last, error)
                &&& tried(self.5, after.5, at[5], at[6], 5, last, error)
                &&& tried(self.6, after.6, at[6], at[7], 6, last, error)
            }
    }

    open spec fn choice_gets(
        &self,
        after: Self,
        from: StreamState,
        to: StreamState,
        r: Result<A::Output, ParserError>,
    ) -> bool {
        exists|at: Seq<StreamState>, last: int|
            {
                &&& #[trigger] decides(at, last, 7, from, to, parser::failure(r))
                &&& get_tried(self.0, after.0, at[0], at[1], 0, last, r)
                &&& get_tried(self.1, after.1, at[1], at[2], 1, last, r)
                &&& get_tried(self.2, after.2, at[2], at[3], 2, last, r)
                &&& get_tried(self.3, after.3, at[3], at[4], 3, last, r)
                &&& get_tried(self.4, after.4, at[4], at[5], 4, last, r)
                &&& get_tried(self.5, after.5, at[5], at[6], 5, last, r)
                &&& get_tried(self.6, after.6, at[6], at[7], 6, last, r)
            }
    }

    open spec fn choice_held(output: A::Output) -> Multiset<nat> {
        A::held(output)
    }

    fn choice_parse(&mut self, stream: &mut A::Input) -> (r: Result<(), ParserError>) {
        let ghost from = stream@;
        let ghost at = seq![from];
        let r = self.0.parse(stream);
        let ghost error = parser::failure(r);
        let ghost at = at.push(stream@);
        if !found_mismatch(&r) {
            assert(decides(at, 0, 7, from, stream@, error));
            return r;
        }
        assert(recover::mismatches(old(self).0, self.0, at[0], at[1]));
        let r = self.1.parse(stream);
        let ghost error = parser::failure(r);
        let ghost at = at.push(stream@);
        if !found_mismatch(&r) {
            assert(decides(at, 1, 7, from, stream@, error));
            return r;
        }
        assert(recover::mismatches(old(self).1, self.1, at[1], at[2]));
        let r = self.2.parse(stream);
        let ghost error = parser::failure(r);
        let ghost at = at.push(stream@);
        if !found_mismatch(&r) {
            assert(decides(at, 2, 7, from, stream@, error));
            return r;
        }
        assert(recover::mismatches(old(self).2, self.2, at[2], at[3]));
        let r = self.3.parse(stream);
        let ghost error = parser::failure(r);
        let ghost at = at.push(stream@);
        if !found_mismatch(&r) {
            assert(decides(at, 3, 7, from, stream@, error));
            return r;
        }
        assert(recover::mismatches(old(self).3, self.3, at[3], at[4]));
        let r = self.4.parse(stream);
        let ghost error = parser::failure(r);
        let ghost at = at.push(stream@);
        if !found_mismatch(&r) {
            assert(decides(at, 4, 7, from, stream@, error));
            return r;
        }
        assert(recover::mismatches(old(self).4, self.4, at[4], at[5]));
        let r = self.5.parse(stream);
        let ghost error = parser::failure(r);
        let ghost at = at.push(stream@);
        if !found_mismatch(&r) {
            assert(decides(at, 5, 7, from, stream@, error));
            return r;
        }
        assert(recover::mismatches(old(self).5, self.5, at[5], at[6]));
        let r = self.6.parse(stream);
        let ghost error = parser::failure(r);
        let ghost at = at.push(stream@);
        assert(decides(at, 6, 7, from, stream@, error));
        r
    }

    fn choice_get(&mut self, stream: &mut A::Input) -> (r: Result<A::Output, ParserError>) {
        let ghost from = stream@;
        let ghost at = seq![from];
        let r = self.0.get(stream);
        let ghost error = parser::failure(r);
        let ghost at = at.push(stream@);
        assert(old(self).0.gets(self.0, at[0], at[1], r));
        if !found_mismatch(&r) {
            assert(decides(at, 0, 7, from, stream@, error));
            return r;
        }
        assert(recover::get_mismatches(old(self).0, self.0, at[0], at[1]));
        let r = self.1.get(stream);
        let ghost error = parser::failure(r);
        let ghost at = at.push(stream@);
        assert(old(self).1.gets(self.1, at[1], at[2], r));
        if !found_mismatch(&r) {
            assert(decides(at, 1, 7, from, stream@, error));
            return r;
        }
        assert(recover::get_mismatches(old(self).1, self.1, at[1], at[2]));
        let r = self.2.get(stream);
        let ghost error = parser::failure(r);
        let ghost at = at.push(stream@);
        assert(old(self).2.gets(self.2, at[2], at[3], r));
        if !found_mismatch(&r) {
            assert(decides(at, 2, 7, from, stream@, error));
            return r;
        }
        assert(recover::get_mismatches(old(self).2, self.2, at[2], at[3]));
        let r = self.3.get(stream);
        let ghost error = parser::failure(r);
        let ghost at = at.push(stream@);
        assert(old(self).3.gets(self.3, at[3], at[4], r));
        if !found_mismatch(&r) {
            assert(decides(at, 3, 7, from, stream@, error));
            return r;
        }
        assert(recover::get_mismatches(old(self).3, self.3, at[3], at[4]));
        let r = self.4.get(stream);
        let ghost error = parser::failure(r);
        let ghost at = at.push(stream@);
        assert(old(self).4.gets(self.4, at[4], at[5], r));
        if !found_mismatch(&r) {
            assert(decides(at, 4, 7, from, stream@, error));
            return r;
        }
        assert(recover::get_mismatches(old(self).4, self.4, at[4], at[5]));
        let r = self.5.get(stream);
        let ghost error = parser::failure(r);
        let ghost at = at.push(stream@);
        assert(old(self).5.gets(self.5, at[5], at[6], r));
        if !found_mismatch(&r) {
            assert(decides(at, 5, 7, from, stream@, error));
            return r;
        }
        assert(recover::get_mismatches(old(self).5, self.5, at[5], at[6]));
        let r = self.6.get(stream);
        let ghost error = parser::failure(r);
        let ghost at = at.push(stream@);
        assert(old(self).6.gets(self.6, at[6], at[7], r));
        assert(decides(at, 6, 7, from, stream@, error));
        r
    }

    fn choice_discard(output: A::Output, stream: &mut A::Input) {
        A::discard(output, stream)
    }
}

/// Chooses between eight parsers.
impl<A, B, C, D, E, F, G, H> ChoiceParser for (A, B, C, D, E, F, G, H) where
    A: Parser,
    B: Parser<Input = A::Input, Output = A::Output>,
    C: Parser<Input = A::Input, Output = A::Output>,
    D: Parser<Input = A::Input, Output = A::Output>,
    E: Parser<Input = A::Input, Output = A::Output>,
    F: Parser<Input = A::Input, Output = A::Output>,
    G: Parser<Input = A::Input, Output = A::Output>,
    H: Parser<Input = A::Input, Output = A::Output>,
 {
    type Input = A::Input;

    type Output = A::Output;

    open spec fn choice_ready(&self, from: StreamState) -> bool {
        let rest = (self.1, self.2, self.3, self.4, self.5, self.6, self.7);
        &&& eligible(self.0, from)
        &&& forall|after: A, at: StreamState| #[trigger]
            recover::mismatches(self.0, after, from, at) ==> {
                &&& hold_alike::<A, B>()
                &&& rest.choice_ready(at)
            }
        &&& forall|after: A, at: StreamState| #[trigger]
            recover::get_mismatches(self.0, after, from, at) ==> {
                &&& hold_alike::<A, B>()
                &&& rest.choice_ready(at)
            }
    }

    open spec fn choice_parses(
        &self,
        after: Self,
        from: StreamState,
        to: StreamState,
        error: Option<ParserError>,
    ) -> bool {
        exists|at: Seq<StreamState>, last: int|
            {
                &&& #[trigger] decides(at, last, 8, from, to, error)
                &&& tried(self.0, after.0, at[0], at[1], 0, last, error)
                &&& tried(self.1, after.1, at[1], at[2], 1, last, error)
                &&& tried(self.2, after.2, at[2], at[3], 2, last, error)
                &&& tried(self.3, after.3, at[3], at[4], 3, last, error)
                &&& tried(self.4, after.4, at[4], at[5], 4, last, error)
                &&& tried(self.5, after.5, at[5], at[6], 5, last, error)
                &&& tried(self.6, after.6, at[6], at[7], 6, last, error)
                &&& tried(self.7, after.7, at[7], at[8], 7, last, error)
            }
    }

    open spec fn choice_gets(
        &self,
        after: Self,
        from: StreamState,
        to: StreamState,
        r: Result<A::Output, ParserError>,
    ) -> bool {
        exists|at: Seq<StreamState>, last: int|
            {
                &&& #[trigger] decides(at, last, 8, from, to, parser::failure(r))
                &&& get_tried(self.0, after.0, at[0], at[1], 0, last, r)
                &&& get_tried(self.1, after.1, at[1], at[2], 1, last, r)
                &&& get_tried(self.2, after.2, at[2], at[3], 2, last, r)
                &&& get_tried(self.3, after.3, at[3], at[4], 3, last, r)
                &&& get_tried(self.4, after.4, at[4], at[5], 4, last, r)
                &&& get_tried(self.5, after.5, at[5], at[6], 5, last, r)
                &&& get_tried(self.6, after.6, at[6], at[7], 6, last, r)
                &&& get_tried(self.7, after.7, at[7], at[8], 7, last, r)
            }
    }

    open spec fn choice_held(output: A::Output) -> Multiset<nat> {
        A::held(output)
    }

    fn choice_parse(&mut self, stream: &mut A::Input) -> (r: Result<(), ParserError>) {
        let ghost from = stream@;
        let ghost at = seq![from];
        let r = self.0.parse(stream);
        let ghost error = parser::failure(r);
        let ghost at = at.push(stream@);
        if !found_mismatch(&r) {
            assert(decides(at, 0, 8, from, stream@, error));
            return r;
        }
        assert(recover::mismatches(old(self).0, self.0, at[0], at[1]));
        let r = self.1.parse(stream);
        let ghost error = parser::failure(r);
        let ghost at = at.push(stream@);
        if !found_mismatch(&r) {
            assert(decides(at, 1, 8, from, stream@, error));
            return r;
        }
        assert(recover::mismatches(old(self).1, self.1, at[1], at[2]));
        let r = self.2.parse(stream);
        let ghost error = parser::failure(r);
        let ghost at = at.push(stream@);
        if !found_mismatch(&r) {
            assert(decides(at, 2, 8, from, stream@, error));
            return r;
        }
        assert(recover::mismatches(old(self).2, self.2, at[2], at[3]));
        let r = self.3.parse(stream);
        let ghost error = parser::failure(r);
        let ghost at = at.push(stream@);
        if !found_mismatch(&r) {
            assert(decides(at, 3, 8, from, stream@, error));
            return r;
        }
        assert(recover::mismatches(old(self).3, self.3, at[3], at[4]));
        let r = self.4.parse(stream);
        let ghost error = parser::failure(r);
        let ghost at = at.push(stream@);
        if !found_mismatch(&r) {
            assert(decides(at, 4, 8, from, stream@, error));
            return r;
        }
        assert(recover::mismatches(old(self).4, self.4, at[4], at[5]));
        let r = self.5.parse(stream);
        let ghost error = parser::failure(r);
        let ghost at = at.push(stream@);
        if !found_mismatch(&r) {
            assert(decides(at, 5, 8, from, stream@, error));
            return r;
        }
        assert(recover::mismatches(old(self).5, self.5, at[5], at[6]));
        let r = self.6.parse(stream);
        let ghost error = parser::failure(r);
        let ghost at = at.push(stream@);
        if !found_mismatch(&r) {
            assert(decides(at, 6, 8, from, stream@, error));
            return r;
        }
        assert(recover::mismatches(old(self).6, self.6, at[6], at[7]));
        let r = self.7.parse(stream);
        let ghost error = parser::failure(r);
        let ghost at = at.push(stream@);
        assert(decides(at, 7, 8, from, stream@, error));
        r
    }

    fn choice_get(&mut self, stream: &mut A::Input) -> (r: Result<A::Output, ParserError>) {
        let ghost from = stream@;
        let ghost at = seq![from];
        let r = self.0.get(stream);
        let ghost error = parser::failure(r);
        let ghost at = at.push(stream@);
        assert(old(self).0.gets(self.0, at[0], at[1], r));
        if !found_mismatch(&r) {
            assert(decides(at, 0, 8, from, stream@, error));
            return r;
        }
        assert(recover::get_mismatches(old(self).0, self.0, at[0], at[1]));
        let r = self.1.get(stream);
        let ghost error = parser::failure(r);
        let ghost at = at.push(stream@);
        assert(old(self).1.gets(self.1, at[1], at[2], r));
        if !found_mismatch(&r) {
            assert(decides(at, 1, 8, from, stream@, error));
            return r;
        }
        assert(recover::get_mismatches(old(self).1, self.1, at[1], at[2]));
        let r = self.2.get(stream);
        let ghost error = parser::failure(r);
        let ghost at = at.push(stream@);
        assert(old(self).2.gets(self.2, at[2], at[3], r));
        if !found_mismatch(&r) {
            assert(decides(at, 2, 8, from, stream@, error));
            return r;
        }
        assert(recover::get_mismatches(old(self).2, self.2, at[2], at[3]));
        let r = self.3.get(stream);
        let ghost error = parser::failure(r);
        let ghost at = at.push(stream@);
        assert(old(self).3.gets(self.3, at[3], at[4], r));
        if !found_mismatch(&r) {
            assert(decides(at, 3, 8, from, stream@, error));
            return r;
        }
        assert(recover::get_mismatches(old(self).3, self.3, at[3], at[4]));
        let r = self.4.get(stream);
        let ghost error = parser::failure(r);
        let ghost at = at.push(stream@);
        assert(old(self).4.gets(self.4, at[4], at[5], r));
        if !found_mismatch(&r) {
            assert(decides(at, 4, 8, from, stream@, error));
            return r;
        }
        assert(recover::get_mismatches(old(self).4, self.4, at[4], at[5]));
        let r = self.5.get(stream);
        let ghost error = parser::failure(r);
        let ghost at = at.push(stream@);
        assert(old(self).5.gets(self.5, at[5], at[6], r));
        if !found_mismatch(&r) {
            assert(decides(at, 5, 8, from, stream@, error));
            return r;
        }
        assert(recover::get_mismatches(old(self).5, self.5, at[5], at[6]));
        let r = self.6.get(stream);
        let ghost error = parser::failure(r);
        let ghost at = at.push(stream@);
        assert(old(self).6.gets(self.6, at[6], at[7], r));
        if !found_mismatch(&r) {
            assert(decides(at, 6, 8, from, stream@, error));
            return r;
        }
        assert(recover::get_mismatches(old(self).6, self.6, at[6], at[7]));
        let r = self.7.get(stream);
        let ghost error = parser::failure(r);
        let ghost at = at.push(stream@);
        assert(old(self).7.gets(self.7, at[7], at[8], r));
        assert(decides(at, 7, 8, from, stream@, error));
        r
    }

    fn choice_discard(output: A::Output, stream: &mut A::Input) {
        A::discard(output, stream)
    }
}

/// Chooses between nine parsers.
impl<A, B, C, D, E, F, G, H, I> ChoiceParser for (A, B, C, D, E, F, G, H, I) where
    A: Parser,
    B: Parser<Input = A::Input, Output = A::Output>,
    C: Parser<Input = A::Input, Output = A::Output>,
    D: Parser<Input = A::Input, Output = A::Output>,
    E: Parser<Input = A::Input, Output = A::Output>,
    F: Parser<Input = A::Input, Output = A::Output>,
    G: Parser<Input = A::Input, Output = A::Output>,
    H: Parser<Input = A::Input, Output = A::Output>,
    I: Parser<Input = A::Input, Output = A::Output>,
 {
    type Input = A::Input;

    type Output = A::Output;

    open spec fn choice_ready(&self, from: StreamState) -> bool {
        let rest = (self.1, self.2, self.3, self.4, self.5, self.6, self.7, self.8);
        &&& eligible(self.0, from)
        &&& forall|after: A, at: StreamState| #[trigger]
            recover::mismatches(self.0, after, from, at) ==> {
                &&& hold_alike::<A, B>()
                &&& rest.choice_ready(at)
            }
        &&& forall|after: A, at: StreamState| #[trigger]
            recover::get_mismatches(self.0, after, from, at) ==> {
                &&& hold_alike::<A, B>()
                &&& rest.choice_ready(at)
            }
    }

    open spec fn choice_parses(
        &self,
        after: Self,
        from: StreamState,
        to: StreamState,
        error: Option<ParserError>,
    ) -> bool {
        exists|at: Seq<StreamState>, last: int|
            {
                &&& #[trigger] decides(at, last, 9, from, to, error)
                &&& tried(self.0, after.0, at[0], at[1], 0, last, error)
                &&& tried(self.1, after.1, at[1], at[2], 1, last, error)
                &&& tried(self.2, after.2, at[2], at[3], 2, last, error)
                &&& tried(self.3, after.3, at[3], at[4], 3, last, error)
                &&& tried(self.4, after.4, at[4], at[5], 4, last, error)
                &&& tried(self.5, after.5, at[5], at[6], 5, last, error)
                &&& tried(self.6, after.6, at[6], at[7], 6, last, error)
                &&& tried(self.7, after.7, at[7], at[8], 7, last, error)
                &&& tried(self.8, after.8, at[8], at[9], 8, last, error)
            }
    }

    open spec fn choice_gets(
        &self,
        after: Self,
        from: StreamState,
        to: StreamState,
        r: Result<A::Output, ParserError>,
    ) -> bool {
        exists|at: Seq<StreamState>, last: int|
            {
                &&& #[trigger] decides(at, last, 9, from, to, parser::failure(r))
                &&& get_tried(self.0, after.0, at[0], at[1], 0, last, r)
                &&& get_tried(self.1, after.1, at[1], at[2], 1, last, r)
                &&& get_tried(self.2, after.2, at[2], at[3], 2, last, r)
                &&& get_tried(self.3, after.3, at[3], at[4], 3, last, r)
                &&& get_tried(self.4, after.4, at[4], at[5], 4, last, r)
                &&& get_tried(self.5, after.5, at[5], at[6], 5, last, r)
                &&& get_tried(self.6, after.6, at[6], at[7], 6, last, r)
                &&& get_tried(self.7, after.7, at[7], at[8], 7, last, r)
                &&& get_tried(self.8, after.8, at[8], at[9], 8, last, r)
            }
    }

    open spec fn choice_held(output: A::Output) -> Multiset<nat> {
        A::held(output)
    }

    fn choice_parse(&mut self, stream: &mut A::Input) -> (r: Result<(), ParserError>) {
        let ghost from = stream@;
        let ghost at = seq![from];
        let r = self.0.parse(stream);
        let ghost error = parser::failure(r);
        let ghost at = at.push(stream@);
        if !found_mismatch(&r) {
            assert(decides(at, 0, 9, from, stream@, error));
            return r;
        }
        assert(recover::mismatches(old(self).0, self.0, at[0], at[1]));
        let r = self.1.parse(stream);
        let ghost error = parser::failure(r);
        let ghost at = at.push(stream@);
        if !found_mismatch(&r) {
            assert(decides(at, 1, 9, from, stream@, error));
            return r;
        }
        assert(recover::mismatches(old(self).1, self.1, at[1], at[2]));
        let r = self.2.parse(stream);
        let ghost error = parser::failure(r);
        let ghost at = at.push(stream@);
        if !found_mismatch(&r) {
            assert(decides(at, 2, 9, from, stream@, error));
            return r;
        }
        assert(recover::mismatches(old(self).2, self.2, at[2], at[3]));
        let r = self.3.parse(stream);
        let ghost error = parser::failure(r);
        let ghost at = at.push(stream@);
        if !found_mismatch(&r) {
            assert(decides(at, 3, 9, from, stream@, error));
            return r;
        }
        assert(recover::mismatches(old(self).3, self.3, at[3], at[4]));
        let r = self.4.parse(stream);
        let ghost error = parser::failure(r);
        let ghost at = at.push(stream@);
        if !found_mismatch(&r) {
            assert(decides(at, 4, 9, from, stream@, error));
            return r;
        }
        assert(recover::mismatches(old(self).4, self.4, at[4], at[5]));
        let r = self.5.parse(stream);
        let ghost error = parser::failure(r);
        let ghost at = at.push(stream@);
        if !found_mismatch(&r) {
            assert(decides(at, 5, 9, from, stream@, error));
            return r;
        }
        assert(recover::mismatches(old(self).5, self.5, at[5], at[6]));
        let r = self.6.parse(stream);
        let ghost error = parser::failure(r);
        let ghost at = at.push(stream@);
        if !found_mismatch(&r) {
            assert(decides(at, 6, 9, from, stream@, error));
            return r;
        }
        assert(recover::mismatches(old(self).6, self.6, at[6], at[7]));
        let r = self.7.parse(stream);
        let ghost error = parser::failure(r);
        let ghost at = at.push(stream@);
        if !found_mismatch(&r) {
            assert(decides(at, 7, 9, from, stream@, error));
            return r;
        }
        assert(recover::mismatches(old(self).7, self.7, at[7], at[8]));
        let r = self.8.parse(stream);
        let ghost error = parser::failure(r);
        let ghost at = at.push(stream@);
        assert(decides(at, 8, 9, from, stream@, error));
        r
    }

    fn choice_get(&mut self, stream: &mut A::Input) -> (r: Result<A::Output, ParserError>) {
        let ghost from = stream@;
        let ghost at = seq![from];
        let r = self.0.get(stream);
        let ghost error = parser::failure(r);
        let ghost at = at.push(stream@);
        assert(old(self).0.gets(self.0, at[0], at[1], r));
        if !found_mismatch(&r) {
            assert(decides(at, 0, 9, from, stream@, error));
            return r;
        }
        assert(recover::get_mismatches(old(self).0, self.0, at[0], at[1]));
        let r = self.1.get(stream);
        let ghost error = parser::failure(r);
        let ghost at = at.push(stream@);
        assert(old(self).1.gets(self.1, at[1], at[2], r));
        if !found_mismatch(&r) {
            assert(decides(at, 1, 9, from, stream@, error));
            return r;
        }
        assert(recover::get_mismatches(old(self).1, self.1, at[1], at[2]));
        let r = self.2.get(stream);
        let ghost error = parser::failure(r);
        let ghost at = at.push(stream@);
        assert(old(self).2.gets(self.2, at[2], at[3], r));
        if !found_mismatch(&r) {
            assert(decides(at, 2, 9, from, stream@, error));
            return r;
        }
        assert(recover::get_mismatches(old(self).2, self.2, at[2], at[3]));
        let r = self.3.get(stream);
        let ghost error = parser::failure(r);
        let ghost at = at.push(stream@);
        assert(old(self).3.gets(self.3, at[3], at[4], r));
        if !found_mismatch(&r) {
            assert(decides(at, 3, 9, from, stream@, error));
            return r;
        }
        assert(recover::get_mismatches(old(self).3, self.3, at[3], at[4]));
        let r = self.4.get(stream);
        let ghost error = parser::failure(r);
        let ghost at = at.push(stream@);
        assert(old(self).4.gets(self.4, at[4], at[5], r));
        if !found_mismatch(&r) {
            assert(decides(at, 4, 9, from, stream@, error));
            return r;
        }
        assert(recover::get_mismatches(old(self).4, self.4, at[4], at[5]));
        let r = self.5.get(stream);
        let ghost error = parser::failure(r);
        let ghost at = at.push(stream@);
        assert(old(self).5.gets(self.5, at[5], at[6], r));
        if !found_mismatch(&r) {
            assert(decides(at, 5, 9, from, stream@, error));
            return r;
        }
        assert(recover::get_mismatches(old(self).5, self.5, at[5], at[6]));
        let r = self.6.get(stream);
        let ghost error = parser::failure(r);
        let ghost at = at.push(stream@);
        assert(old(self).6.gets(self.6, at[6], at[7], r));
        if !found_mismatch(&r) {
            assert(decides(at, 6, 9, from, stream@, error));
            return r;
        }
        assert(recover::get_mismatches(old(self).6, self.6, at[6], at[7]));
        let r = self.7.get(stream);
        let ghost error = parser::failure(r);
        let ghost at = at.push(stream@);
        assert(old(self).7.gets(self.7, at[7], at[8], r));
        if !found_mismatch(&r) {
            assert(decides(at, 7, 9, from, stream@, error));
            return r;
        }
        assert(recover::get_mismatches(old(self).7, self.7, at[7], at[8]));
        let r = self.8.get(stream);
        let ghost error = parser::failure(r);
        let ghost at = at.push(stream@);
        assert(old(self).8.gets(self.8, at[8], at[9], r));
        assert(decides(at, 8, 9, from, stream@, error));
        r
    }

    fn choice_discard(output: A::Output, stream: &mut A::Input) {
        A::discard(output, stream)
    }
}

/// Chooses between ten parsers.
impl<A, B, C, D, E, F, G, H, I, J> ChoiceParser for (A, B, C, D, E, F, G, H, I, J) where
    A: Parser,
    B: Parser<Input = A::Input, Output = A::Output>,
    C: Parser<Input = A::Input, Output = A::Output>,
    D: Parser<Input = A::Input, Output = A::Output>,
    E: Parser<Input = A::Input, Output = A::Output>,
    F: Parser<Input = A::Input, Output = A::Output>,
    G: Parser<Input = A::Input, Output = A::Output>,
    H: Parser<Input = A::Input, Output = A::Output>,
    I: Parser<Input = A::Input, Output = A::Output>,
    J: Parser<Input = A::Input, Output = A::Output>,
 {
    type Input = A::Input;

    type Output = A::Output;

    open spec fn choice_ready(&self, from: StreamState) -> bool {
        let rest = (self.1, self.2, self.3, self.4, self.5, self.6, self.7, self.8, self.9);
        &&& eligible(self.0, from)
        &&& forall|after: A, at: StreamState| #[trigger]
            recover::mismatches(self.0, after, from, at) ==> {
                &&& hold_alike::<A, B>()
                &&& rest.choice_ready(at)
            }
        &&& forall|after: A, at: StreamState| #[trigger]
            recover::get_mismatches(self.0, after, from, at) ==> {
                &&& hold_alike::<A, B>()
                &&& rest.choice_ready(at)
            }
    }

    open spec fn choice_parses(
        &self,
        after: Self,
        from: StreamState,
        to: StreamState,
        error: Option<ParserError>,
    ) -> bool {
        exists|at: Seq<StreamState>, last: int|
            {
                &&& #[trigger] decides(at, last, 10, from, to, error)
                &&& tried(self.0, after.0, at[0], at[1], 0, last, error)
                &&& tried(self.1, after.1, at[1], at[2], 1, last, error)
                &&& tried(self.2, after.2, at[2], at[3], 2, last, error)
                &&& tried(self.3, after.3, at[3], at[4], 3, last, error)
                &&& tried(self.4, after.4, at[4], at[5], 4, last, error)
                &&& tried(self.5, after.5, at[5], at[6], 5, last, error)
                &&& tried(self.6, after.6, at[6], at[7], 6, last, error)
                &&& tried(self.7, after.7, at[7], at[8], 7, last, error)
                &&& tried(self.8, after.8, at[8], at[9], 8, last, error)
                &&& tried(self.9, after.9, at[9], at[10], 9, last, error)
            }
    }

    open spec fn choice_gets(
        &self,
        after: Self,
        from: StreamState,
        to: StreamState,
        r: Result<A::Output, ParserError>,
    ) -> bool {
        exists|at: Seq<StreamState>, last: int|
            {
                &&& #[trigger] decides(at, last, 10, from, to, parser::failure(r))
                &&& get_tried(self.0, after.0, at[0], at[1], 0, last, r)
                &&& get_tried(self.1, after.1, at[1], at[2], 1, last, r)
                &&& get_tried(self.2, after.2, at[2], at[3], 2, last, r)
                &&& get_tried(self.3, after.3, at[3], at[4], 3, last, r)
                &&& get_tried(self.4, after.4, at[4], at[5], 4, last, r)
                &&& get_tried(self.5, after.5, at[5], at[6], 5, last, r)
                &&& get_tried(self.6, after.6, at[6], at[7], 6, last, r)
                &&& get_tried(self.7, after.7, at[7], at[8], 7, last, r)
                &&& get_tried(self.8, after.8, at[8], at[9], 8, last, r)
                &&& get_tried(self.9, after.9, at[9], at[10], 9, last, r)
            }
    }

    open spec fn choice_held(output: A::Output) -> Multiset<nat> {
        A::held(output)
    }

    fn choice_parse(&mut self, stream: &mut A::Input) -> (r: Result<(), ParserError>) {
        let ghost from = stream@;
        let ghost at = seq![from];
        let r = self.0.parse(stream);
        let ghost error = parser::failure(r);
        let ghost at = at.push(stream@);
        if !found_mismatch(&r) {
            assert(decides(at, 0, 10, from, stream@, error));
            return r;
        }
        assert(recover::mismatches(old(self).0, self.0, at[0], at[1]));
        let r = self.1.parse(stream);
        let ghost error = parser::failure(r);
        let ghost at = at.push(stream@);
        if !found_mismatch(&r) {
            assert(decides(at, 1, 10, from, stream@, error));
            return r;
        }
        assert(recover::mismatches(old(self).1, self.1, at[1], at[2]));
        let r = self.2.parse(stream);
        let ghost error = parser::failure(r);
        let ghost at = at.push(stream@);
        if !found_mismatch(&r) {
            assert(decides(at, 2, 10, from, stream@, error));
            return r;
        }
        assert(recover::mismatches(old(self).2, self.2, at[2], at[3]));
        let r = self.3.parse(stream);
        let ghost error = parser::failure(r);
        let ghost at = at.push(stream@);
        if !found_mismatch(&r) {
            assert(decides(at, 3, 10, from, stream@, error));
            return r;
        }
        assert(recover::mismatches(old(self).3, self.3, at[3], at[4]));
        let r = self.4.parse(stream);
        let ghost error = parser::failure(r);
        let ghost at = at.push(stream@);
        if !found_mismatch(&r) {
            assert(decides(at, 4, 10, from, stream@, error));
            return r;
        }
        assert(recover::mismatches(old(self).4, self.4, at[4], at[5]));
        let r = self.5.parse(stream);
        let ghost error = parser::failure(r);
        let ghost at = at.push(stream@);
        if !found_mismatch(&r) {
            assert(decides(at, 5, 10, from, stream@, error));
            return r;
        }
        assert(recover::mismatches(old(self).5, self.5, at[5], at[6]));
        let r = self.6.parse(stream);
        let ghost error = parser::failure(r);
        let ghost at = at.push(stream@);
        if !found_mismatch(&r) {
            assert(decides(at, 6, 10, from, stream@, error));
            return r;
        }
        assert(recover::mismatches(old(self).6, self.6, at[6], at[7]));
        let r = self.7.parse(stream);
        let ghost error = parser::failure(r);
        let ghost at = at.push(stream@);
        if !found_mismatch(&r) {
            assert(decides(at, 7, 10, from, stream@, error));
            return r;
        }
        assert(recover::mismatches(old(self).7, self.7, at[7], at[8]));
        let r = self.8.parse(stream);
        let ghost error = parser::failure(r);
        let ghost at = at.push(stream@);
        if !found_mismatch(&r) {
            assert(decides(at, 8, 10, from, stream@, error));
            return r;
        }
        assert(recover::mismatches(old(self).8, self.8, at[8], at[9]));
        let r = self.9.parse(stream);
        let ghost error = parser::failure(r);
        let ghost at = at.push(stream@);
        assert(decides(at, 9, 10, from, stream@, error));
        r
    }

    fn choice_get(&mut self, stream: &mut A::Input) -> (r: Result<A::Output, ParserError>) {
        let ghost from = stream@;
        let ghost at = seq![from];
        let r = self.0.get(stream);
        let ghost error = parser::failure(r);
        let ghost at = at.push(stream@);
        assert(old(self).0.gets(self.0, at[0], at[1], r));
        if !found_mismatch(&r) {
            assert(decides(at, 0, 10, from, stream@, error));
            return r;
        }
        assert(recover::get_mismatches(old(self).0, self.0, at[0], at[1]));
        let r = self.1.get(stream);
        let ghost error = parser::failure(r);
        let ghost at = at.push(stream@);
        assert(old(self).1.gets(self.1, at[1], at[2], r));
        if !found_mismatch(&r) {
            assert(decides(at, 1, 10, from, stream@, error));
            return r;
        }
        assert(recover::get_mismatches(old(self).1, self.1, at[1], at[2]));
        let r = self.2.get(stream);
        let ghost error = parser::failure(r);
        let ghost at = at.push(stream@);
        assert(old(self).2.gets(self.2, at[2], at[3], r));
        if !found_mismatch(&r) {
            assert(decides(at, 2, 10, from, stream@, error));
            return r;
        }
        assert(recover::get_mismatches(old(self).2, self.2, at[2], at[3]));
        let r = self.3.get(stream);
        let ghost error = parser::failure(r);
        let ghost at = at.push(stream@);
        assert(old(self).3.gets(self.3, at[3], at[4], r));
        if !found_mismatch(&r) {
            assert(decides(at, 3, 10, from, stream@, error));
            return r;
        }
        assert(recover::get_mismatches(old(self).3, self.3, at[3], at[4]));
        let r = self.4.get(stream);
        let ghost error = parser::failure(r);
        let ghost at = at.push(stream@);
        assert(old(self).4.gets(self.4, at[4], at[5], r));
        if !found_mismatch(&r) {
            assert(decides(at, 4, 10, from, stream@, error));
            return r;
        }
        assert(recover::get_mismatches(old(self).4, self.4, at[4], at[5]));
        let r = self.5.get(stream);
        let ghost error = parser::failure(r);
        let ghost at = at.push(stream@);
        assert(old(self).5.gets(self.5, at[5], at[6], r));
        if !found_mismatch(&r) {
            assert(decides(at, 5, 10, from, stream@, error));
            return r;
        }
        assert(recover::get_mismatches(old(self).5, self.5, at[5], at[6]));
        let r = self.6.get(stream);
        let ghost error = parser::failure(r);
        let ghost at = at.push(stream@);
        assert(old(self).6.gets(self.6, at[6], at[7], r));
        if !found_mismatch(&r) {
            assert(decides(at, 6, 10, from, stream@, error));
            return r;
        }
        assert(recover::get_mismatches(old(self).6, self.6, at[6], at[7]));
        let r = self.7.get(stream);
        let ghost error = parser::failure(r);
        let ghost at = at.push(stream@);
        assert(old(self).7.gets(self.7, at[7], at[8], r));
        if !found_mismatch(&r) {
            assert(decides(at, 7, 10, from, stream@, error));
            return r;
        }
        assert(recover::get_mismatches(old(self).7, self.7, at[7], at[8]));
        let r = self.8.get(stream);
        let ghost error = parser::failure(r);
        let ghost at = at.push(stream@);
        assert(old(self).8.gets(self.8, at[8], at[9], r));
        if !found_mismatch(&r) {
            assert(decides(at, 8, 10, from, stream@, error));
            return r;
        }
        assert(recover::get_mismatches(old(self).8, self.8, at[8], at[9]));
        let r = self.9.get(stream);
        let ghost error = parser::failure(r);
        let ghost at = at.push(stream@);
        assert(old(self).9.gets(self.9, at[9], at[10], r));
        assert(decides(at, 9, 10, from, stream@, error));
        r
    }

    fn choice_discard(output: A::Output, stream: &mut A::Input) {
        A::discard(output, stream)
    }
}

/// Chooses between eleven parsers.
impl<A, B, C, D, E, F, G, H, I, J, K> ChoiceParser for (A, B, C, D, E, F, G, H, I, J, K) where
    A: Parser,
    B: Parser<Input = A::Input, Output = A::Output>,
    C: Parser<Input = A::Input, Output = A::Output>,
    D: Parser<Input = A::Input, Output = A::Output>,
    E: Parser<Input = A::Input, Output = A::Output>,
    F: Parser<Input = A::Input, Output = A::Output>,
    G: Parser<Input = A::Input, Output = A::Output>,
    H: Parser<Input = A::Input, Output = A::Output>,
    I: Parser<Input = A::Input, Output = A::Output>,
    J: Parser<Input = A::Input, Output = A::Output>,
    K: Parser<Input = A::Input, Output = A::Output>,
 {
    type Input = A::Input;

    type Output = A::Output;

    open spec fn choice_ready(&self, from: StreamState) -> bool {
        let rest = (
            self.1,
            self.2,
            self.3,
            self.4,
            self.5,
            self.6,
            self.7,
            self.8,
            self.9,
            self.10,
        );
        &&& eligible(self.0, from)
        &&& forall|after: A, at: StreamState| #[trigger]
            recover::mismatches(self.0, after, from, at) ==> {
                &&& hold_alike::<A, B>()
                &&& rest.choice_ready(at)
            }
        &&& forall|after: A, at: StreamState| #[trigger]
            recover::get_mismatches(self.0, after, from, at) ==> {
                &&& hold_alike::<A, B>()
                &&& rest.choice_ready(at)
            }
    }

    open spec fn choice_parses(
        &self,
        after: Self,
        from: StreamState,
        to: StreamState,
        error: Option<ParserError>,
    ) -> bool {
        exists|at: Seq<StreamState>, last: int|
            {
                &&& #[trigger] decides(at, last, 11, from, to, error)
                &&& tried(self.0, after.0, at[0], at[1], 0, last, error)
                &&& tried(self.1, after.1, at[1], at[2], 1, last, error)
                &&& tried(self.2, after.2, at[2], at[3], 2, last, error)
                &&& tried(self.3, after.3, at[3], at[4], 3, last, error)
                &&& tried(self.4, after.4, at[4], at[5], 4, last, error)
                &&& tried(self.5, after.5, at[5], at[6], 5, last, error)
                &&& tried(self.6, after.6, at[6], at[7], 6, last, error)
                &&& tried(self.7, after.7, at[7], at[8], 7, last, error)
                &&& tried(self.8, after.8, at[8], at[9], 8, last, error)
                &&& tried(self.9, after.9, at[9], at[10], 9, last, error)
                &&& tried(self.10, after.10, at[10], at[11], 10, last, error)
            }
    }

    open spec fn choice_gets(
        &self,
        after: Self,
        from: StreamState,
        to: StreamState,
        r: Result<A::Output, ParserError>,
    ) -> bool {
        exists|at: Seq<StreamState>, last: int|
            {
                &&& #[trigger] decides(at, last, 11, from, to, parser::failure(r))
                &&& get_tried(self.0, after.0, at[0], at[1], 0, last, r)
                &&& get_tried(self.1, after.1, at[1], at[2], 1, last, r)
                &&& get_tried(self.2, after.2, at[2], at[3], 2, last, r)
                &&& get_tried(self.3, after.3, at[3], at[4], 3, last, r)
                &&& get_tried(self.4, after.4, at[4], at[5], 4, last, r)
                &&& get_tried(self.5, after.5, at[5], at[6], 5, last, r)
                &&& get_tried(self.6, after.6, at[6], at[7], 6, last, r)
                &&& get_tried(self.7, after.7, at[7], at[8], 7, last, r)
                &&& get_tried(self.8, after.8, at[8], at[9], 8, last, r)
                &&& get_tried(self.9, after.9, at[9], at[10], 9, last, r)
                &&& get_tried(self.10, after.10, at[10], at[11], 10, last, r)
            }
    }

    open spec fn choice_held(output: A::Output) -> Multiset<nat> {
        A::held(output)
    }

    fn choice_parse(&mut self, stream: &mut A::Input) -> (r: Result<(), ParserError>) {
        let ghost from = stream@;
        let ghost at = seq![from];
        let r = self.0.parse(stream);
        let ghost error = parser::failure(r);
        let ghost at = at.push(stream@);
        if !found_mismatch(&r) {
            assert(decides(at, 0, 11, from, stream@, error));
            return r;
        }
        assert(recover::mismatches(old(self).0, self.0, at[0], at[1]));
        let r = self.1.parse(stream);
        let ghost error = parser::failure(r);
        let ghost at = at.push(stream@);
        if !found_mismatch(&r) {
            assert(decides(at, 1, 11, from, stream@, error));
            return r;
        }
        assert(recover::mismatches(old(self).1, self.1, at[1], at[2]));
        let r = self.2.parse(stream);
        let ghost error = parser::failure(r);
        let ghost at = at.push(stream@);
        if !found_mismatch(&r) {
            assert(decides(at, 2, 11, from, stream@, error));
            return r;
        }
        assert(recover::mismatches(old(self).2, self.2, at[2], at[3]));
        let r = self.3.parse(stream);
        let ghost error = parser::failure(r);
        let ghost at = at.push(stream@);
        if !found_mismatch(&r) {
            assert(decides(at, 3, 11, from, stream@, error));
            return r;
        }
        assert(recover::mismatches(old(self).3, self.3, at[3], at[4]));
        let r = self.4.parse(stream);
        let ghost error = parser::failure(r);
        let ghost at = at.push(stream@);
        if !found_mismatch(&r) {
            assert(decides(at, 4, 11, from, stream@, error));
            return r;
        }
        assert(recover::mismatches(old(self).4, self.4, at[4], at[5]));
        let r = self.5.parse(stream);
        let ghost error = parser::failure(r);
        let ghost at = at.push(stream@);
        if !found_mismatch(&r) {
            assert(decides(at, 5, 11, from, stream@, error));
            return r;
        }
        assert(recover::mismatches(old(self).5, self.5, at[5], at[6]));
        let r = self.6.parse(stream);
        let ghost error = parser::failure(r);
        let ghost at = at.push(stream@);
        if !found_mismatch(&r) {
            assert(decides(at, 6, 11, from, stream@, error));
            return r;
        }
        assert(recover::mismatches(old(self).6, self.6, at[6], at[7]));
        let r = self.7.parse(stream);
        let ghost error = parser::failure(r);
        let ghost at = at.push(stream@);
        if !found_mismatch(&r) {
            assert(decides(at, 7, 11, from, stream@, error));
            return r;
        }
        assert(recover::mismatches(old(self).7, self.7, at[7], at[8]));
        let r = self.8.parse(stream);
        let ghost error = parser::failure(r);
        let ghost at = at.push(stream@);
        if !found_mismatch(&r) {
            assert(decides(at, 8, 11, from, stream@, error));
            return r;
        }
        assert(recover::mismatches(old(self).8, self.8, at[8], at[9]));
        let r = self.9.parse(stream);
        let ghost error = parser::failure(r);
        let ghost at = at.push(stream@);
        if !found_mismatch(&r) {
            assert(decides(at, 9, 11, from, stream@, error));
            return r;
        }
        assert(recover::mismatches(old(self).9, self.9, at[9], at[10]));
        let r = self.10.parse(stream);
        let ghost error = parser::failure(r);
        let ghost at = at.push(stream@);
        assert(decides(at, 10, 11, from, stream@, error));
        r
    }

    fn choice_get(&mut self, stream: &mut A::Input) -> (r: Result<A::Output, ParserError>) {
        let ghost from = stream@;
        let ghost at = seq![from];
        let r = self.0.get(stream);
        let ghost error = parser::failure(r);
        let ghost at = at.push(stream@);
        assert(old(self).0.gets(self.0, at[0], at[1], r));
        if !found_mismatch(&r) {
            assert(decides(at, 0, 11, from, stream@, error));
            return r;
        }
        assert(recover::get_mismatches(old(self).0, self.0, at[0], at[1]));
        let r = self.1.get(stream);
        let ghost error = parser::failure(r);
        let ghost at = at.push(stream@);
        assert(old(self).1.gets(self.1, at[1], at[2], r));
        if !found_mismatch(&r) {
            assert(decides(at, 1, 11, from, stream@, error));
            return r;
        }
        assert(recover::get_mismatches(old(self).1, self.1, at[1], at[2]));
        let r = self.2.get(stream);
        let ghost error = parser::failure(r);
        let ghost at = at.push(stream@);
        assert(old(self).2.gets(self.2, at[2], at[3], r));
        if !found_mismatch(&r) {
            assert(decides(at, 2, 11, from, stream@, error));
            return r;
        }
        assert(recover::get_mismatches(old(self).2, self.2, at[2], at[3]));
        let r = self.3.get(stream);
        let ghost error = parser::failure(r);
        let ghost at = at.push(stream@);
        assert(old(self).3.gets(self.3, at[3], at[4], r));
        if !found_mismatch(&r) {
            assert(decides(at, 3, 11, from, stream@, error));
            return r;
        }
        assert(recover::get_mismatches(old(self).3, self.3, at[3], at[4]));
        let r = self.4.get(stream);
        let ghost error = parser::failure(r);
        let ghost at = at.push(stream@);
        assert(old(self).4.gets(self.4, at[4], at[5], r));
        if !found_mismatch(&r) {
            assert(decides(at, 4, 11, from, stream@, error));
            return r;
        }
        assert(recover::get_mismatches(old(self).4, self.4, at[4], at[5]));
        let r = self.5.get(stream);
        let ghost error = parser::failure(r);
        let ghost at = at.push(stream@);
        assert(old(self).5.gets(self.5, at[5], at[6], r));
        if !found_mismatch(&r) {
            assert(decides(at, 5, 11, from, stream@, error));
            return r;
        }
        assert(recover::get_mismatches(old(self).5, self.5, at[5], at[6]));
        let r = self.6.get(stream);
        let ghost error = parser::failure(r);
        let ghost at = at.push(stream@);
        assert(old(self).6.gets(self.6, at[6], at[7], r));
        if !found_mismatch(&r) {
            assert(decides(at, 6, 11, from, stream@, error));
            return r;
        }
        assert(recover::get_mismatches(old(self).6, self.6, at[6], at[7]));
        let r = self.7.get(stream);
        let ghost error = parser::failure(r);
        let ghost at = at.push(stream@);
        assert(old(self).7.gets(self.7, at[7], at[8], r));
        if !found_mismatch(&r) {
            assert(decides(at, 7, 11, from, stream@, error));
            return r;
        }
        assert(recover::get_mismatches(old(self).7, self.7, at[7], at[8]));
        let r = self.8.get(stream);
        let ghost error = parser::failure(r);
        let ghost at = at.push(stream@);
        assert(old(self).8.gets(self.8, at[8], at[9], r));
        if !found_mismatch(&r) {
            assert(decides(at, 8, 11, from, stream@, error));
            return r;
        }
        assert(recover::get_mismatches(old(self).8, self.8, at[8], at[9]));
        let r = self.9.get(stream);
        let ghost error = parser::failure(r);
        let ghost at = at.push(stream@);
        assert(old(self).9.gets(self.9, at[9], at[10], r));
        if !found_mismatch(&r) {
            assert(decides(at, 9, 11, from, stream@, error));
            return r;
        }
        assert(recover::get_mismatches(old(self).9, self.9, at[9], at[10]));
        let r = self.10.get(stream);
        let ghost error = parser::failure(r);
        let ghost at = at.push(stream@);
        assert(old(self).10.gets(self.10, at[10], at[11], r));
        assert(decides(at, 10, 11, from, stream@, error));
        r
    }

    fn choice_discard(output: A::Output, stream: &mut A::Input) {
        A::discard(output, stream)
    }
}

/// Chooses between twelve parsers.
impl<A, B, C, D, E, F, G, H, I, J, K, L> ChoiceParser for (A, B, C, D, E, F, G, H, I, J, K, L) where
    A: Parser,
    B: Parser<Input = A::Input, Output = A::Output>,
    C: Parser<Input = A::Input, Output = A::Output>,
    D: Parser<Input = A::Input, Output = A::Output>,
    E: Parser<Input = A::Input, Output = A::Output>,
    F: Parser<Input = A::Input, Output = A::Output>,
    G: Parser<Input = A::Input, Output = A::Output>,
    H: Parser<Input = A::Input, Output = A::Output>,
    I: Parser<Input = A::Input, Output = A::Output>,
    J: Parser<Input = A::Input, Output = A::Output>,
    K: Parser<Input = A::Input, Output = A::Output>,
    L: Parser<Input = A::Input, Output = A::Output>,
 {
    type Input = A::Input;

    type Output = A::Output;

    open spec fn choice_ready(&self, from: StreamState) -> bool {
        let rest = (
            self.1,
            self.2,
            self.3,
            self.4,
            self.5,
            self.6,
            self.7,
            self.8,
            self.9,
            self.10,
            self.11,
        );
        &&& eligible(self.0, from)
        &&& forall|after: A, at: StreamState| #[trigger]
            recover::mismatches(self.0, after, from, at) ==> {
                &&& hold_alike::<A, B>()
                &&& rest.choice_ready(at)
            }
        &&& forall|after: A, at: StreamState| #[trigger]
            recover::get_mismatches(self.0, after, from, at) ==> {
                &&& hold_alike::<A, B>()
                &&& rest.choice_ready(at)
            }
    }

    open spec fn choice_parses(
        &self,
        after: Self,
        from: StreamState,
        to: StreamState,
        error: Option<ParserError>,
    ) -> bool {
        exists|at: Seq<StreamState>, last: int|
            {
                &&& #[trigger] decides(at, last, 12, from, to, error)
                &&& tried(self.0, after.0, at[0], at[1], 0, last, error)
                &&& tried(self.1, after.1, at[1], at[2], 1, last, error)
                &&& tried(self.2, after.2, at[2], at[3], 2, last, error)
                &&& tried(self.3, after.3, at[3], at[4], 3, last, error)
                &&& tried(self.4, after.4, at[4], at[5], 4, last, error)
                &&& tried(self.5, after.5, at[5], at[6], 5, last, error)
                &&& tried(self.6, after.6, at[6], at[7], 6, last, error)
                &&& tried(self.7, after.7, at[7], at[8], 7, last, error)
                &&& tried(self.8, after.8, at[8], at[9], 8, last, error)
                &&& tried(self.9, after.9, at[9], at[10], 9, last, error)
                &&& tried(self.10, after.10, at[10], at[11], 10, last, error)
                &&& tried(self.11, after.11, at[11], at[12], 11, last, error)
            }
    }

    open spec fn choice_gets(
        &self,
        after: Self,
        from: StreamState,
        to: StreamState,
        r: Result<A::Output, ParserError>,
    ) -> bool {
        exists|at: Seq<StreamState>, last: int|
            {
                &&& #[trigger] decides(at, last, 12, from, to, parser::failure(r))
                &&& get_tried(self.0, after.0, at[0], at[1], 0, last, r)
                &&& get_tried(self.1, after.1, at[1], at[2], 1, last, r)
                &&& get_tried(self.2, after.2, at[2], at[3], 2, last, r)
                &&& get_tried(self.3, after.3, at[3], at[4], 3, last, r)
                &&& get_tried(self.4, after.4, at[4], at[5], 4, last, r)
                &&& get_tried(self.5, after.5, at[5], at[6], 5, last, r)
                &&& get_tried(self.6, after.6, at[6], at[7], 6, last, r)
                &&& get_tried(self.7, after.7, at[7], at[8], 7, last, r)
                &&& get_tried(self.8, after.8, at[8], at[9], 8, last, r)
                &&& get_tried(self.9, after.9, at[9], at[10], 9, last, r)
                &&& get_tried(self.10, after.10, at[10], at[11], 10, last, r)
                &&& get_tried(self.11, after.11, at[11], at[12], 11, last, r)
            }
    }

    open spec fn choice_held(output: A::Output) -> Multiset<nat> {
        A::held(output)
    }

    fn choice_parse(&mut self, stream: &mut A::Input) -> (r: Result<(), ParserError>) {
        let ghost from = stream@;
        let ghost at = seq![from];
        let r = self.0.parse(stream);
        let ghost error = parser::failure(r);
        let ghost at = at.push(stream@);
        if !found_mismatch(&r) {
            assert(decides(at, 0, 12, from, stream@, error));
            return r;
        }
        assert(recover::mismatches(old(self).0, self.0, at[0], at[1]));
        let r = self.1.parse(stream);
        let ghost error = parser::failure(r);
        let ghost at = at.push(stream@);
        if !found_mismatch(&r) {
            assert(decides(at, 1, 12, from, stream@, error));
            return r;
        }
        assert(recover::mismatches(old(self).1, self.1, at[1], at[2]));
        let r = self.2.parse(stream);
        let ghost error = parser::failure(r);
        let ghost at = at.push(stream@);
        if !found_mismatch(&r) {
            assert(decides(at, 2, 12, from, stream@, error));
            return r;
        }
        assert(recover::mismatches(old(self).2, self.2, at[2], at[3]));
        let r = self.3.parse(stream);
        let ghost error = parser::failure(r);
        let ghost at = at.push(stream@);
        if !found_mismatch(&r) {
            assert(decides(at, 3, 12, from, stream@, error));
            return r;
        }
        assert(recover::mismatches(old(self).3, self.3, at[3], at[4]));
        let r = self.4.parse(stream);
        let ghost error = parser::failure(r);
        let ghost at = at.push(stream@);
        if !found_mismatch(&r) {
            assert(decides(at, 4, 12, from, stream@, error));
            return r;
        }
        assert(recover::mismatches(old(self).4, self.4, at[4], at[5]));
        let r = self.5.parse(stream);
        let ghost error = parser::failure(r);
        let ghost at = at.push(stream@);
        if !found_mismatch(&r) {
            assert(decides(at, 5, 12, from, stream@, error));
            return r;
        }
        assert(recover::mismatches(old(self).5, self.5, at[5], at[6]));
        let r = self.6.parse(stream);
        let ghost error = parser::failure(r);
        let ghost at = at.push(stream@);
        if !found_mismatch(&r) {
            assert(decides(at, 6, 12, from, stream@, error));
            return r;
        }
        assert(recover::mismatches(old(self).6, self.6, at[6], at[7]));
        let r = self.7.parse(stream);
        let ghost error = parser::failure(r);
        let ghost at = at.push(stream@);
        if !found_mismatch(&r) {
            assert(decides(at, 7, 12, from, stream@, error));
            return r;
        }
        assert(recover::mismatches(old(self).7, self.7, at[7], at[8]));
        let r = self.8.parse(stream);
        let ghost error = parser::failure(r);
        let ghost at = at.push(stream@);
        if !found_mismatch(&r) {
            assert(decides(at, 8, 12, from, stream@, error));
            return r;
        }
        assert(recover::mismatches(old(self).8, self.8, at[8], at[9]));
        let r = self.9.parse(stream);
        let ghost error = parser::failure(r);
        let ghost at = at.push(stream@);
        if !found_mismatch(&r) {
            assert(decides(at, 9, 12, from, stream@, error));
            return r;
        }
        assert(recover::mismatches(old(self).9, self.9, at[9], at[10]));
        let r = self.10.parse(stream);
        let ghost error = parser::failure(r);
        let ghost at = at.push(stream@);
        if !found_mismatch(&r) {
            assert(decides(at, 10, 12, from, stream@, error));
            return r;
        }
        assert(recover::mismatches(old(self).10, self.10, at[10], at[11]));
        let r = self.11.parse(stream);
        let ghost error = parser::failure(r);
        let ghost at = at.push(stream@);
        assert(decides(at, 11, 12, from, stream@, error));
        r
    }

    fn choice_get(&mut self, stream: &mut A::Input) -> (r: Result<A::Output, ParserError>) {
        let ghost from = stream@;
        let ghost at = seq![from];
        let r = self.0.get(stream);
        let ghost error = parser::failure(r);
        let ghost at = at.push(stream@);
        assert(old(self).0.gets(self.0, at[0], at[1], r));
        if !found_mismatch(&r) {
            assert(decides(at, 0, 12, from, stream@, error));
            return r;
        }
        assert(recover::get_mismatches(old(self).0, self.0, at[0], at[1]));
        let r = self.1.get(stream);
        let ghost error = parser::failure(r);
        let ghost at = at.push(stream@);
        assert(old(self).1.gets(self.1, at[1], at[2], r));
        if !found_mismatch(&r) {
            assert(decides(at, 1, 12, from, stream@, error));
            return r;
        }
        assert(recover::get_mismatches(old(self).1, self.1, at[1], at[2]));
        let r = self.2.get(stream);
        let ghost error = parser::failure(r);
        let ghost at = at.push(stream@);
        assert(old(self).2.gets(self.2, at[2], at[3], r));
        if !found_mismatch(&r) {
            assert(decides(at, 2, 12, from, stream@, error));
            return r;
        }
        assert(recover::get_mismatches(old(self).2, self.2, at[2], at[3]));
        let r = self.3.get(stream);
        let ghost error = parser::failure(r);
        let ghost at = at.push(stream@);
        assert(old(self).3.gets(self.3, at[3], at[4], r));
        if !found_mismatch(&r) {
            assert(decides(at, 3, 12, from, stream@, error));
            return r;
        }
        assert(recover::get_mismatches(old(self).3, self.3, at[3], at[4]));
        let r = self.4.get(stream);
        let ghost error = parser::failure(r);
        let ghost at = at.push(stream@);
        assert(old(self).4.gets(self.4, at[4], at[5], r));
        if !found_mismatch(&r) {
            assert(decides(at, 4, 12, from, stream@, error));
            return r;
        }
        assert(recover::get_mismatches(old(self).4, self.4, at[4], at[5]));
        let r = self.5.get(stream);
        let ghost error = parser::failure(r);
        let ghost at = at.push(stream@);
        assert(old(self).5.gets(self.5, at[5], at[6], r));
        if !found_mismatch(&r) {
            assert(decides(at, 5, 12, from, stream@, error));
            return r;
        }
        assert(recover::get_mismatches(old(self).5, self.5, at[5], at[6]));
        let r = self.6.get(stream);
        let ghost error = parser::failure(r);
        let ghost at = at.push(stream@);
        assert(old(self).6.gets(self.6, at[6], at[7], r));
        if !found_mismatch(&r) {
            assert(decides(at, 6, 12, from, stream@, error));
            return r;
        }
        assert(recover::get_mismatches(old(self).6, self.6, at[6], at[7]));
        let r = self.7.get(stream);
        let ghost error = parser::failure(r);
        let ghost at = at.push(stream@);
        assert(old(self).7.gets(self.7, at[7], at[8], r));
        if !found_mismatch(&r) {
            assert(decides(at, 7, 12, from, stream@, error));
            return r;
        }
        assert(recover::get_mismatches(old(self).7, self.7, at[7], at[8]));
        let r = self.8.get(stream);
        let ghost error = parser::failure(r);
        let ghost at = at.push(stream@);
        assert(old(self).8.gets(self.8, at[8], at[9], r));
        if !found_mismatch(&r) {
            assert(decides(at, 8, 12, from, stream@, error));
            return r;
        }
        assert(recover::get_mismatches(old(self).8, self.8, at[8], at[9]));
        let r = self.9.get(stream);
        let ghost error = parser::failure(r);
        let ghost at = at.push(stream@);
        assert(old(self).9.gets(self.9, at[9], at[10], r));
        if !found_mismatch(&r) {
            assert(decides(at, 9, 12, from, stream@, error));
            return r;
        }
        assert(recover::get_mismatches(old(self).9, self.9, at[9], at[10]));
        let r = self.10.get(stream);
        let ghost error = parser::failure(r);
        let ghost at = at.push(stream@);
        assert(old(self).10.gets(self.10, at[10], at[11], r));
        if !found_mismatch(&r) {
            assert(decides(at, 10, 12, from, stream@, error));
            return r;
        }
        assert(recover::get_mismatches(old(self).10, self.10, at[10], at[11]));
        let r = self.11.get(stream);
        let ghost error = parser::failure(r);
        let ghost at = at.push(stream@);
        assert(old(self).11.gets(self.11, at[11], at[12], r));
        assert(decides(at, 11, 12, from, stream@, error));
        r
    }

    fn choice_discard(output: A::Output, stream: &mut A::Input) {
        A::discard(output, stream)
    }
}

/// Chooses between thirteen parsers.
impl<A, B, C, D, E, F, G, H, I, J, K, L, M> ChoiceParser for (
    A,
    B,
    C,
    D,
    E,
    F,
    G,
    H,
    I,
    J,
    K,
    L,
    M,
) where
    A: Parser,
    B: Parser<Input = A::Input, Output = A::Output>,
    C: Parser<Input = A::Input, Output = A::Output>,
    D: Parser<Input = A::Input, Output = A::Output>,
    E: Parser<Input = A::Input, Output = A::Output>,
    F: Parser<Input = A::Input, Output = A::Output>,
    G: Parser<Input = A::Input, Output = A::Output>,
    H: Parser<Input = A::Input, Output = A::Output>,
    I: Parser<Input = A::Input, Output = A::Output>,
    J: Parser<Input = A::Input, Output = A::Output>,
    K: Parser<Input = A::Input, Output = A::Output>,
    L: Parser<Input = A::Input, Output = A::Output>,
    M: Parser<Input = A::Input, Output = A::Output>,
 {
    type Input = A::Input;

    type Output = A::Output;

    open spec fn choice_ready(&self, from: StreamState) -> bool {
        let rest = (
            self.1,
            self.2,
            self.3,
            self.4,
            self.5,
            self.6,
            self.7,
            self.8,
            self.9,
            self.10,
            self.11,
            self.12,
        );
        &&& eligible(self.0, from)
        &&& forall|after: A, at: StreamState| #[trigger]
            recover::mismatches(self.0, after, from, at) ==> {
                &&& hold_alike::<A, B>()
                &&& rest.choice_ready(at)
            }
        &&& forall|after: A, at: StreamState| #[trigger]
            recover::get_mismatches(self.0, after, from, at) ==> {
                &&& hold_alike::<A, B>()
                &&& rest.choice_ready(at)
            }
    }

    open spec fn choice_parses(
        &self,
        after: Self,
        from: StreamState,
        to: StreamState,
        error: Option<ParserError>,
    ) -> bool {
        exists|at: Seq<StreamState>, last: int|
            {
                &&& #[trigger] decides(at, last, 13, from, to, error)
                &&& tried(self.0, after.0, at[0], at[1], 0, last, error)
                &&& tried(self.1, after.1, at[1], at[2], 1, last, error)
                &&& tried(self.2, after.2, at[2], at[3], 2, last, error)
                &&& tried(self.3, after.3, at[3], at[4], 3, last, error)
                &&& tried(self.4, after.4, at[4], at[5], 4, last, error)
                &&& tried(self.5, after.5, at[5], at[6], 5, last, error)
                &&& tried(self.6, after.6, at[6], at[7], 6, last, error)
                &&& tried(self.7, after.7, at[7], at[8], 7, last, error)
                &&& tried(self.8, after.8, at[8], at[9], 8, last, error)
                &&& tried(self.9, after.9, at[9], at[10], 9, last, error)
                &&& tried(self.10, after.10, at[10], at[11], 10, last, error)
                &&& tried(self.11, after.11, at[11], at[12], 11, last, error)
                &&& tried(self.12, after.12, at[12], at[13], 12, last, error)
            }
    }

    open spec fn choice_gets(
        &self,
        after: Self,
        from: StreamState,
        to: StreamState,
        r: Result<A::Output, ParserError>,
    ) -> bool {
        exists|at: Seq<StreamState>, last: int|
            {
                &&& #[trigger] decides(at, last, 13, from, to, parser::failure(r))
                &&& get_tried(self.0, after.0, at[0], at[1], 0, last, r)
                &&& get_tried(self.1, after.1, at[1], at[2], 1, last, r)
                &&& get_tried(self.2, after.2, at[2], at[3], 2, last, r)
                &&& get_tried(self.3, after.3, at[3], at[4], 3, last, r)
                &&& get_tried(self.4, after.4, at[4], at[5], 4, last, r)
                &&& get_tried(self.5, after.5, at[5], at[6], 5, last, r)
                &&& get_tried(self.6, after.6, at[6], at[7], 6, last, r)
                &&& get_tried(self.7, after.7, at[7], at[8], 7, last, r)
                &&& get_tried(self.8, after.8, at[8], at[9], 8, last, r)
                &&& get_tried(self.9, after.9, at[9], at[10], 9, last, r)
                &&& get_tried(self.10, after.10, at[10], at[11], 10, last, r)
                &&& get_tried(self.11, after.11, at[11], at[12], 11, last, r)
                &&& get_tried(self.12, after.12, at[12], at[13], 12, last, r)
            }
    }

    open spec fn choice_held(output: A::Output) -> Multiset<nat> {
        A::held(output)
    }

    fn choice_parse(&mut self, stream: &mut A::Input) -> (r: Result<(), ParserError>) {
        let ghost from = stream@;
        let ghost at = seq![from];
        let r = self.0.parse(stream);
        let ghost error = parser::failure(r);
        let ghost at = at.push(stream@);
        if !found_mismatch(&r) {
            assert(decides(at, 0, 13, from, stream@, error));
            return r;
        }
        assert(recover::mismatches(old(self).0, self.0, at[0], at[1]));
        let r = self.1.parse(stream);
        let ghost error = parser::failure(r);
        let ghost at = at.push(stream@);
        if !found_mismatch(&r) {
            assert(decides(at, 1, 13, from, stream@, error));
            return r;
        }
        assert(recover::mismatches(old(self).1, self.1, at[1], at[2]));
        let r = self.2.parse(stream);
        let ghost error = parser::failure(r);
        let ghost at = at.push(stream@);
        if !found_mismatch(&r) {
            assert(decides(at, 2, 13, from, stream@, error));
            return r;
        }
        assert(recover::mismatches(old(self).2, self.2, at[2], at[3]));
        let r = self.3.parse(stream);
        let ghost error = parser::failure(r);
        let ghost at = at.push(stream@);
        if !found_mismatch(&r) {
            assert(decides(at, 3, 13, from, stream@, error));
            return r;
        }
        assert(recover::mismatches(old(self).3, self.3, at[3], at[4]));
        let r = self.4.parse(stream);
        let ghost error = parser::failure(r);
        let ghost at = at.push(stream@);
        if !found_mismatch(&r) {
            assert(decides(at, 4, 13, from, stream@, error));
            return r;
        }
        assert(recover::mismatches(old(self).4, self.4, at[4], at[5]));
        let r = self.5.parse(stream);
        let ghost error = parser::failure(r);
        let ghost at = at.push(stream@);
        if !found_mismatch(&r) {
            assert(decides(at, 5, 13, from, stream@, error));
            return r;
        }
        assert(recover::mismatches(old(self).5, self.5, at[5], at[6]));
        let r = self.6.parse(stream);
        let ghost error = parser::failure(r);
        let ghost at = at.push(stream@);
        if !found_mismatch(&r) {
            assert(decides(at, 6, 13, from, stream@, error));
            return r;
        }
        assert(recover::mismatches(old(self).6, self.6, at[6], at[7]));
        let r = self.7.parse(stream);
        let ghost error = parser::failure(r);
        let ghost at = at.push(stream@);
        if !found_mismatch(&r) {
            assert(decides(at, 7, 13, from, stream@, error));
            return r;
        }
        assert(recover::mismatches(old(self).7, self.7, at[7], at[8]));
        let r = self.8.parse(stream);
        let ghost error = parser::failure(r);
        let ghost at = at.push(stream@);
        if !found_mismatch(&r) {
            assert(decides(at, 8, 13, from, stream@, error));
            return r;
        }
        assert(recover::mismatches(old(self).8, self.8, at[8], at[9]));
        let r = self.9.parse(stream);
        let ghost error = parser::failure(r);
        let ghost at = at.push(stream@);
        if !found_mismatch(&r) {
            assert(decides(at, 9, 13, from, stream@, error));
            return r;
        }
        assert(recover::mismatches(old(self).9, self.9, at[9], at[10]));
        let r = self.10.parse(stream);
        let ghost error = parser::failure(r);
        let ghost at = at.push(stream@);
        if !found_mismatch(&r) {
            assert(decides(at, 10, 13, from, stream@, error));
            return r;
        }
        assert(recover::mismatches(old(self).10, self.10, at[10], at[11]));
        let r = self.11.parse(stream);
        let ghost error = parser::failure(r);
        let ghost at = at.push(stream@);
        if !found_mismatch(&r) {
            assert(decides(at, 11, 13, from, stream@, error));
            return r;
        }
        assert(recover::mismatches(old(self).11, self.11, at[11], at[12]));
        let r = self.12.parse(stream);
        let ghost error = parser::failure(r);
        let ghost at = at.push(stream@);
        assert(decides(at, 12, 13, from, stream@, error));
        r
    }

    fn choice_get(&mut self, stream: &mut A::Input) -> (r: Result<A::Output, ParserError>) {
        let ghost from = stream@;
        let ghost at = seq![from];
        let r = self.0.get(stream);
        let ghost error = parser::failure(r);
        let ghost at = at.push(stream@);
        assert(old(self).0.gets(self.0, at[0], at[1], r));
        if !found_mismatch(&r) {
            assert(decides(at, 0, 13, from, stream@, error));
            return r;
        }
        assert(recover::get_mismatches(old(self).0, self.0, at[0], at[1]));
        let r = self.1.get(stream);
        let ghost error = parser::failure(r);
        let ghost at = at.push(stream@);
        assert(old(self).1.gets(self.1, at[1], at[2], r));
        if !found_mismatch(&r) {
            assert(decides(at, 1, 13, from, stream@, error));
            return r;
        }
        assert(recover::get_mismatches(old(self).1, self.1, at[1], at[2]));
        let r = self.2.get(stream);
        let ghost error = parser::failure(r);
        let ghost at = at.push(stream@);
        assert(old(self).2.gets(self.2, at[2], at[3], r));
        if !found_mismatch(&r) {
            assert(decides(at, 2, 13, from, stream@, error));
            return r;
        }
        assert(recover::get_mismatches(old(self).2, self.2, at[2], at[3]));
        let r = self.3.get(stream);
        let ghost error = parser::failure(r);
        let ghost at = at.push(stream@);
        assert(old(self).3.gets(self.3, at[3], at[4], r));
        if !found_mismatch(&r) {
            assert(decides(at, 3, 13, from, stream@, error));
            return r;
        }
        assert(recover::get_mismatches(old(self).3, self.3, at[3], at[4]));
        let r = self.4.get(stream);
        let ghost error = parser::failure(r);
        let ghost at = at.push(stream@);
        assert(old(self).4.gets(self.4, at[4], at[5], r));
        if !found_mismatch(&r) {
            assert(decides(at, 4, 13, from, stream@, error));
            return r;
        }
        assert(recover::get_mismatches(old(self).4, self.4, at[4], at[5]));
        let r = self.5.get(stream);
        let ghost error = parser::failure(r);
        let ghost at = at.push(stream@);
        assert(old(self).5.gets(self.5, at[5], at[6], r));
        if !found_mismatch(&r) {
            assert(decides(at, 5, 13, from, stream@, error));
            return r;
        }
        assert(recover::get_mismatches(old(self).5, self.5, at[5], at[6]));
        let r = self.6.get(stream);
        let ghost error = parser::failure(r);
        let ghost at = at.push(stream@);
        assert(old(self).6.gets(self.6, at[6], at[7], r));
        if !found_mismatch(&r) {
            assert(decides(at, 6, 13, from, stream@, error));
            return r;
        }
        assert(recover::get_mismatches(old(self).6, self.6, at[6], at[7]));
        let r = self.7.get(stream);
        let ghost error = parser::failure(r);
        let ghost at = at.push(stream@);
        assert(old(self).7.gets(self.7, at[7], at[8], r));
        if !found_mismatch(&r) {
            assert(decides(at, 7, 13, from, stream@, error));
            return r;
        }
        assert(recover::get_mismatches(old(self).7, self.7, at[7], at[8]));
        let r = self.8.get(stream);
        let ghost error = parser::failure(r);
        let ghost at = at.push(stream@);
        assert(old(self).8.gets(self.8, at[8], at[9], r));
        if !found_mismatch(&r) {
            assert(decides(at, 8, 13, from, stream@, error));
            return r;
        }
        assert(recover::get_mismatches(old(self).8, self.8, at[8], at[9]));
        let r = self.9.get(stream);
        let ghost error = parser::failure(r);
        let ghost at = at.push(stream@);
        assert(old(self).9.gets(self.9, at[9], at[10], r));
        if !found_mismatch(&r) {
            assert(decides(at, 9, 13, from, stream@, error));
            return r;
        }
        assert(recover::get_mismatches(old(self).9, self.9, at[9], at[10]));
        let r = self.10.get(stream);
        let ghost error = parser::failure(r);
        let ghost at = at.push(stream@);
        assert(old(self).10.gets(self.10, at[10], at[11], r));
        if !found_mismatch(&r) {
            assert(decides(at, 10, 13, from, stream@, error));
            return r;
        }
        assert(recover::get_mismatches(old(self).10, self.10, at[10], at[11]));
        let r = self.11.get(stream);
        let ghost error = parser::failure(r);
        let ghost at = at.push(stream@);
        assert(old(self).11.gets(self.11, at[11], at[12], r));
        if !found_mismatch(&r) {
            assert(decides(at, 11, 13, from, stream@, error));
            return r;
        }
        assert(recover::get_mismatches(old(self).11, self.11, at[11], at[12]));
        let r = self.12.get(stream);
        let ghost error = parser::failure(r);
        let ghost at = at.push(stream@);
        assert(old(self).12.gets(self.12, at[12], at[13], r));
        assert(decides(at, 12, 13, from, stream@, error));
        r
    }

    fn choice_discard(output: A::Output, stream: &mut A::Input) {
        A::discard(output, stream)
    }
}

/// Chooses between fourteen parsers.
impl<A, B, C, D, E, F, G, H, I, J, K, L, M, N> ChoiceParser for (
    A,
    B,
    C,
    D,
    E,
    F,
    G,
    H,
    I,
    J,
    K,
    L,
    M,
    N,
) where
    A: Parser,
    B: Parser<Input = A::Input, Output = A::Output>,
    C: Parser<Input = A::Input, Output = A::Output>,
    D: Parser<Input = A::Input, Output = A::Output>,
    E: Parser<Input = A::Input, Output = A::Output>,
    F: Parser<Input = A::Input, Output = A::Output>,
    G: Parser<Input = A::Input, Output = A::Output>,
    H: Parser<Input = A::Input, Output = A::Output>,
    I: Parser<Input = A::Input, Output = A::Output>,
    J: Parser<Input = A::Input, Output = A::Output>,
    K: Parser<Input = A::Input, Output = A::Output>,
    L: Parser<Input = A::Input, Output = A::Output>,
    M: Parser<Input = A::Input, Output = A::Output>,
    N: Parser<Input = A::Input, Output = A::Output>,
 {
    type Input = A::Input;

    type Output = A::Output;

    open spec fn choice_ready(&self, from: StreamState) -> bool {
        let rest = (
            self.1,
            self.2,
            self.3,
            self.4,
            self.5,
            self.6,
            self.7,
            self.8,
            self.9,
            self.10,
            self.11,
            self.12,
            self.13,
        );
        &&& eligible(self.0, from)
        &&& forall|after: A, at: StreamState| #[trigger]
            recover::mismatches(self.0, after, from, at) ==> {
                &&& hold_alike::<A, B>()
                &&& rest.choice_ready(at)
            }
        &&& forall|after: A, at: StreamState| #[trigger]
            recover::get_mismatches(self.0, after, from, at) ==> {
                &&& hold_alike::<A, B>()
                &&& rest.choice_ready(at)
            }
    }

    open spec fn choice_parses(
        &self,
        after: Self,
        from: StreamState,
        to: StreamState,
        error: Option<ParserError>,
    ) -> bool {
        exists|at: Seq<StreamState>, last: int|
            {
                &&& #[trigger] decides(at, last, 14, from, to, error)
                &&& tried(self.0, after.0, at[0], at[1], 0, last, error)
                &&& tried(self.1, after.1, at[1], at[2], 1, last, error)
                &&& tried(self.2, after.2, at[2], at[3], 2, last, error)
                &&& tried(self.3, after.3, at[3], at[4], 3, last, error)
                &&& tried(self.4, after.4, at[4], at[5], 4, last, error)
                &&& tried(self.5, after.5, at[5], at[6], 5, last, error)
                &&& tried(self.6, after.6, at[6], at[7], 6, last, error)
                &&& tried(self.7, after.7, at[7], at[8], 7, last, error)
                &&& tried(self.8, after.8, at[8], at[9], 8, last, error)
                &&& tried(self.9, after.9, at[9], at[10], 9, last, error)
                &&& tried(self.10, after.10, at[10], at[11], 10, last, error)
                &&& tried(self.11, after.11, at[11], at[12], 11, last, error)
                &&& tried(self.12, after.12, at[12], at[13], 12, last, error)
                &&& tried(self.13, after.13, at[13], at[14], 13, last, error)
            }
    }

    open spec fn choice_gets(
        &self,
        after: Self,
        from: StreamState,
        to: StreamState,
        r: Result<A::Output, ParserError>,
    ) -> bool {
        exists|at: Seq<StreamState>, last: int|
            {
                &&& #[trigger] decides(at, last, 14, from, to, parser::failure(r))
                &&& get_tried(self.0, after.0, at[0], at[1], 0, last, r)
                &&& get_tried(self.1, after.1, at[1], at[2], 1, last, r)
                &&& get_tried(self.2, after.2, at[2], at[3], 2, last, r)
                &&& get_tried(self.3, after.3, at[3], at[4], 3, last, r)
                &&& get_tried(self.4, after.4, at[4], at[5], 4, last, r)
                &&& get_tried(self.5, after.5, at[5], at[6], 5, last, r)
                &&& get_tried(self.6, after.6, at[6], at[7], 6, last, r)
                &&& get_tried(self.7, after.7, at[7], at[8], 7, last, r)
                &&& get_tried(self.8, after.8, at[8], at[9], 8, last, r)
                &&& get_tried(self.9, after.9, at[9], at[10], 9, last, r)
                &&& get_tried(self.10, after.10, at[10], at[11], 10, last, r)
                &&& get_tried(self.11, after.11, at[11], at[12], 11, last, r)
                &&& get_tried(self.12, after.12, at[12], at[13], 12, last, r)
                &&& get_tried(self.13, after.13, at[13], at[14], 13, last, r)
            }
    }

    open spec fn choice_held(output: A::Output) -> Multiset<nat> {
        A::held(output)
    }

    fn choice_parse(&mut self, stream: &mut A::Input) -> (r: Result<(), ParserError>) {
        let ghost from = stream@;
        let ghost at = seq![from];
        let r = self.0.parse(stream);
        let ghost error = parser::failure(r);
        let ghost at = at.push(stream@);
        if !found_mismatch(&r) {
            assert(decides(at, 0, 14, from, stream@, error));
            return r;
        }
        assert(recover::mismatches(old(self).0, self.0, at[0], at[1]));
        let r = self.1.parse(stream);
        let ghost error = parser::failure(r);
        let ghost at = at.push(stream@);
        if !found_mismatch(&r) {
            assert(decides(at, 1, 14, from, stream@, error));
            return r;
        }
        assert(recover::mismatches(old(self).1, self.1, at[1], at[2]));
        let r = self.2.parse(stream);
        let ghost error = parser::failure(r);
        let ghost at = at.push(stream@);
        if !found_mismatch(&r) {
            assert(decides(at, 2, 14, from, stream@, error));
            return r;
        }
        assert(recover::mismatches(old(self).2, self.2, at[2], at[3]));
        let r = self.3.parse(stream);
        let ghost error = parser::failure(r);
        let ghost at = at.push(stream@);
        if !found_mismatch(&r) {
            assert(decides(at, 3, 14, from, stream@, error));
            return r;
        }
        assert(recover::mismatches(old(self).3, self.3, at[3], at[4]));
        let r = self.4.parse(stream);
        let ghost error = parser::failure(r);
        let ghost at = at.push(stream@);
        if !found_mismatch(&r) {
            assert(decides(at, 4, 14, from, stream@, error));
            return r;
        }
        assert(recover::mismatches(old(self).4, self.4, at[4], at[5]));
        let r = self.5.parse(stream);
        let ghost error = parser::failure(r);
        let ghost at = at.push(stream@);
        if !found_mismatch(&r) {
            assert(decides(at, 5, 14, from, stream@, error));
            return r;
        }
        assert(recover::mismatches(old(self).5, self.5, at[5], at[6]));
        let r = self.6.parse(stream);
        let ghost error = parser::failure(r);
        let ghost at = at.push(stream@);
        if !found_mismatch(&r) {
            assert(decides(at, 6, 14, from, stream@, error));
            return r;
        }
        assert(recover::mismatches(old(self).6, self.6, at[6], at[7]));
        let r = self.7.parse(stream);
        let ghost error = parser::failure(r);
        let ghost at = at.push(stream@);
        if !found_mismatch(&r) {
            assert(decides(at, 7, 14, from, stream@, error));
            return r;
        }
        assert(recover::mismatches(old(self).7, self.7, at[7], at[8]));
        let r = self.8.parse(stream);
        let ghost error = parser::failure(r);
        let ghost at = at.push(stream@);
        if !found_mismatch(&r) {
            assert(decides(at, 8, 14, from, stream@, error));
            return r;
        }
        assert(recover::mismatches(old(self).8, self.8, at[8], at[9]));
        let r = self.9.parse(stream);
        let ghost error = parser::failure(r);
        let ghost at = at.push(stream@);
        if !found_mismatch(&r) {
            assert(decides(at, 9, 14, from, stream@, error));
            return r;
        }
        assert(recover::mismatches(old(self).9, self.9, at[9], at[10]));
        let r = self.10.parse(stream);
        let ghost error = parser::failure(r);
        let ghost at = at.push(stream@);
        if !found_mismatch(&r) {
            assert(decides(at, 10, 14, from, stream@, error));
            return r;
        }
        assert(recover::mismatches(old(self).10, self.10, at[10], at[11]));
        let r = self.11.parse(stream);
        let ghost error = parser::failure(r);
        let ghost at = at.push(stream@);
        if !found_mismatch(&r) {
            assert(decides(at, 11, 14, from, stream@, error));
            return r;
        }
        assert(recover::mismatches(old(self).11, self.11, at[11], at[12]));
        let r = self.12.parse(stream);
        let ghost error = parser::failure(r);
        let ghost at = at.push(stream@);
        if !found_mismatch(&r) {
            assert(decides(at, 12, 14, from, stream@, error));
            return r;
        }
        assert(recover::mismatches(old(self).12, self.12, at[12], at[13]));
        let r = self.13.parse(stream);
        let ghost error = parser::failure(r);
        let ghost at = at.push(stream@);
        assert(decides(at, 13, 14, from, stream@, error));
        r
    }

    fn choice_get(&mut self, stream: &mut A::Input) -> (r: Result<A::Output, ParserError>) {
        let ghost from = stream@;
        let ghost at = seq![from];
        let r = self.0.get(stream);
        let ghost error = parser::failure(r);
        let ghost at = at.push(stream@);
        assert(old(self).0.gets(self.0, at[0], at[1], r));
        if !found_mismatch(&r) {
            assert(decides(at, 0, 14, from, stream@, error));
            return r;
        }
        assert(recover::get_mismatches(old(self).0, self.0, at[0], at[1]));
        let r = self.1.get(stream);
        let ghost error = parser::failure(r);
        let ghost at = at.push(stream@);
        assert(old(self).1.gets(self.1, at[1], at[2], r));
        if !found_mismatch(&r) {
            assert(decides(at, 1, 14, from, stream@, error));
            return r;
        }
        assert(recover::get_mismatches(old(self).1, self.1, at[1], at[2]));
        let r = self.2.get(stream);
        let ghost error = parser::failure(r);
        let ghost at = at.push(stream@);
        assert(old(self).2.gets(self.2, at[2], at[3], r));
        if !found_mismatch(&r) {
            assert(decides(at, 2, 14, from, stream@, error));
            return r;
        }
        assert(recover::get_mismatches(old(self).2, self.2, at[2], at[3]));
        let r = self.3.get(stream);
        let ghost error = parser::failure(r);
        let ghost at = at.push(stream@);
        assert(old(self).3.gets(self.3, at[3], at[4], r));
        if !found_mismatch(&r) {
            assert(decides(at, 3, 14, from, stream@, error));
            return r;
        }
        assert(recover::get_mismatches(old(self).3, self.3, at[3], at[4]));
        let r = self.4.get(stream);
        let ghost error = parser::failure(r);
        let ghost at = at.push(stream@);
        assert(old(self).4.gets(self.4, at[4], at[5], r));
        if !found_mismatch(&r) {
            assert(decides(at, 4, 14, from, stream@, error));
            return r;
        }
        assert(recover::get_mismatches(old(self).4, self.4, at[4], at[5]));
        let r = self.5.get(stream);
        let ghost error = parser::failure(r);
        let ghost at = at.push(stream@);
        assert(old(self).5.gets(self.5, at[5], at[6], r));
        if !found_mismatch(&r) {
            assert(decides(at, 5, 14, from, stream@, error));
            return r;
        }
        assert(recover::get_mismatches(old(self).5, self.5, at[5], at[6]));
        let r = self.6.get(stream);
        let ghost error = parser::failure(r);
        let ghost at = at.push(stream@);
        assert(old(self).6.gets(self.6, at[6], at[7], r));
        if !found_mismatch(&r) {
            assert(decides(at, 6, 14, from, stream@, error));
            return r;
        }
        assert(recover::get_mismatches(old(self).6, self.6, at[6], at[7]));
        let r = self.7.get(stream);
        let ghost error = parser::failure(r);
        let ghost at = at.push(stream@);
        assert(old(self).7.gets(self.7, at[7], at[8], r));
        if !found_mismatch(&r) {
            assert(decides(at, 7, 14, from, stream@, error));
            return r;
        }
        assert(recover::get_mismatches(old(self).7, self.7, at[7], at[8]));
        let r = self.8.get(stream);
        let ghost error = parser::failure(r);
        let ghost at = at.push(stream@);
        assert(old(self).8.gets(self.8, at[8], at[9], r));
        if !found_mismatch(&r) {
            assert(decides(at, 8, 14, from, stream@, error));
            return r;
        }
        assert(recover::get_mismatches(old(self).8, self.8, at[8], at[9]));
        let r = self.9.get(stream);
        let ghost error = parser::failure(r);
        let ghost at = at.push(stream@);
        assert(old(self).9.gets(self.9, at[9], at[10], r));
        if !found_mismatch(&r) {
            assert(decides(at, 9, 14, from, stream@, error));
            return r;
        }
        assert(recover::get_mismatches(old(self).9, self.9, at[9], at[10]));
        let r = self.10.get(stream);
        let ghost error = parser::failure(r);
        let ghost at = at.push(stream@);
        assert(old(self).10.gets(self.10, at[10], at[11], r));
        if !found_mismatch(&r) {
            assert(decides(at, 10, 14, from, stream@, error));
            return r;
        }
        assert(recover::get_mismatches(old(self).10, self.10, at[10], at[11]));
        let r = self.11.get(stream);
        let ghost error = parser::failure(r);
        let ghost at = at.push(stream@);
        assert(old(self).11.gets(self.11, at[11], at[12], r));
        if !found_mismatch(&r) {
            assert(decides(at, 11, 14, from, stream@, error));
            return r;
        }
        assert(recover::get_mismatches(old(self).11, self.11, at[11], at[12]));
        let r = self.12.get(stream);
        let ghost error = parser::failure(r);
        let ghost at = at.push(stream@);
        assert(old(self).12.gets(self.12, at[12], at[13], r));
        if !found_mismatch(&r) {
            assert(decides(at, 12, 14, from, stream@, error));
            return r;
        }
        assert(recover::get_mismatches(old(self).12, self.12, at[12], at[13]));
        let r = self.13.get(stream);
        let ghost error = parser::failure(r);
        let ghost at = at.push(stream@);
        assert(old(self).13.gets(self.13, at[13], at[14], r));
        assert(decides(at, 13, 14, from, stream@, error));
        r
    }

    fn choice_discard(output: A::Output, stream: &mut A::Input) {
        A::discard(output, stream)
    }
}

} // verus!
