//! What a parser is.
use crate::errors::ParserError;
use crate::streamer::{StreamState, Streamer, StreamerRange};
use vstd::multiset::Multiset;
use vstd::prelude::*;

verus! {

/// A parser takes its input from a stream.
///
/// What a parser does is stated as a relation between the parser before and after the call, the
/// state of the stream before and after the call, and the outcome. The state of the stream tells
/// what it was asked and what it keeps, so that the relation also says how a parser goes about it.
/// Of a parser that is not verified nothing is known.
pub trait Parser: Sized {
    /// The type of the stream that the parser reads.
    type Input: Streamer;

    /// The type of the parsed data returned by `get`.
    type Output;

    /// Whether the parser can be applied to a stream in the state `from`.
    closed spec fn ready(&self, from: StreamState) -> bool {
        arbitrary()
    }

    /// Whether `parse` may turn the parser into `after` and the state of the stream from `from`
    /// into `to`, and fail with `error`, or succeed if there is none.
    closed spec fn parses(
        &self,
        after: Self,
        from: StreamState,
        to: StreamState,
        error: Option<ParserError>,
    ) -> bool {
        arbitrary()
    }

    /// Whether `get` may turn the parser into `after` and the state of the stream from `from` into
    /// `to`, with the result `r`.
    closed spec fn gets(
        &self,
        after: Self,
        from: StreamState,
        to: StreamState,
        r: Result<Self::Output, ParserError>,
    ) -> bool {
        arbitrary()
    }

    /// The positions of the checkpoints that an output holds.
    closed spec fn held(output: Self::Output) -> Multiset<nat> {
        arbitrary()
    }

    /// Parses the input without returning any output.
    ///
    /// If the parser succeeds, the stream is just after the parsed sequence. If it fails, the error
    /// says at which position, and where the stream is depends on the parser. An error of the
    /// stream is the last answer of the stream.
    fn parse(&mut self, stream: &mut Self::Input) -> (r: Result<(), ParserError>)
        requires
            old(stream).wf(),
            old(self).ready(old(stream)@),
        ensures
            final(stream).wf(),
            final(stream)@.feed == old(stream)@.feed,
            r matches Err(error) ==> error.told_by(final(stream)@.answers),
            final(stream)@.marks == old(stream)@.marks,
            r is Ok ==> old(stream)@.pos <= final(stream)@.pos,
            old(self).parses(*final(self), old(stream)@, final(stream)@, failure(r)),
    ;

    /// Parses the input and, if it succeeds, returns the parsed value. Otherwise acts like `parse`.
    fn get(&mut self, stream: &mut Self::Input) -> (r: Result<Self::Output, ParserError>)
        requires
            old(stream).wf(),
            old(self).ready(old(stream)@),
        ensures
            final(stream).wf(),
            final(stream)@.feed == old(stream)@.feed,
            r matches Err(error) ==> error.told_by(final(stream)@.answers),
            r is Ok ==> old(stream)@.pos <= final(stream)@.pos,
            old(self).gets(*final(self), old(stream)@, final(stream)@, r),
            match r {
                Ok(output) => final(stream)@.marks == old(stream)@.marks.add(Self::held(output)),
                Err(_) => final(stream)@.marks == old(stream)@.marks,
            },
    ;

    /// Gives the checkpoints that an output holds back to the stream that it was parsed from.
    fn discard(output: Self::Output, stream: &mut Self::Input)
        requires
            old(stream).wf(),
            Self::held(output).subset_of(old(stream)@.marks),
        ensures
            final(stream).wf(),
            final(stream)@ == old(stream)@.released_all(Self::held(output)),
    ;

    /// Parses the input and, if it succeeds, returns the range of the parsed sequence. Otherwise
    /// acts like `parse`. The stream keeps the sequence meanwhile.
    fn get_range(
        &mut self,
        stream: &mut Self::Input,
    ) -> (r: Result<<Self::Input as Streamer>::Range, ParserError>)
        requires
            old(stream).wf(),
            old(self).ready(old(stream)@.marked()),
        ensures
            final(stream).wf(),
            final(stream)@.feed == old(stream)@.feed,
            r matches Err(error) ==> error.told_by(final(stream)@.answers),
            match r {
                Ok(range) => {
                    &&& range.start() == old(stream)@.pos
                    &&& range.end() == final(stream)@.pos
                    &&& range.start() <= range.end()
                    &&& final(stream)@.marks == old(stream)@.marks.insert(range.start()).insert(
                        range.end(),
                    )
                    &&& exists|at: StreamState|
                        {
                            &&& #[trigger] old(self).parses(
                                *final(self),
                                old(stream)@.marked(),
                                at,
                                None,
                            )
                            &&& final(stream)@ == at.marked()
                        }
                },
                Err(error) => {
                    &&& final(stream)@.marks == old(stream)@.marks
                    &&& exists|at: StreamState|
                        {
                            &&& #[trigger] old(self).parses(
                                *final(self),
                                old(stream)@.marked(),
                                at,
                                Some(error),
                            )
                            &&& final(stream)@ == at.released(old(stream)@.pos)
                        }
                },
            },
    {
        let checkpoint = stream.checkpoint();
        let r = self.parse(stream);
        let ghost at = stream@;
        assert(old(self).parses(*self, old(stream)@.marked(), at, failure(r)));
        match r {
            Ok(()) => Ok(stream.range_from_checkpoint(checkpoint)),
            Err(error) => {
                stream.release(checkpoint);
                assert(stream@.marks =~= old(stream)@.marks);
                Err(error)
            },
        }
    }
}

/// What every parser can do besides.
pub trait ParserExt: Parser {
    /// Parses a sequence between two others, which `between` parses, and if it succeeds returns the
    /// range of the sequence in the middle.
    fn get_between<P: Parser<Input = Self::Input>>(
        &mut self,
        stream: &mut Self::Input,
        between: P,
    ) -> (r: Result<<Self::Input as Streamer>::Range, ParserError>)
        requires
            old(stream).wf(),
            ready_between(*old(self), between, old(stream)@),
        ensures
            final(stream).wf(),
            final(stream)@.feed == old(stream)@.feed,
            r matches Err(error) ==> error.told_by(final(stream)@.answers),
            match r {
                Ok(range) => {
                    &&& range.start() <= range.end()
                    &&& gets_between(
                        *old(self),
                        *final(self),
                        between,
                        old(stream)@,
                        final(stream)@,
                        range.start(),
                        range.end(),
                    )
                    &&& final(stream)@.marks == old(stream)@.marks.insert(range.start()).insert(
                        range.end(),
                    )
                },
                Err(error) => {
                    &&& fails_between(
                        *old(self),
                        *final(self),
                        between,
                        old(stream)@,
                        final(stream)@,
                        error,
                    )
                    &&& final(stream)@.marks == old(stream)@.marks
                },
            },
    ;
}

impl<Q: Parser> ParserExt for Q {
    fn get_between<P: Parser<Input = Self::Input>>(
        &mut self,
        stream: &mut Self::Input,
        between: P,
    ) -> (r: Result<<Self::Input as Streamer>::Range, ParserError>) {
        let mut between = between;
        let ghost first = between;
        match between.parse(stream) {
            Ok(()) => {},
            Err(error) => return Err(error),
        }
        let ghost start = stream@;
        let ghost opened = between;
        assert(first.parses(opened, old(stream)@, start, None));
        let from = stream.checkpoint();
        match self.parse(stream) {
            Ok(()) => {},
            Err(error) => {
                let ghost at = stream@;
                assert(old(self).parses(*self, start.marked(), at, Some(error)));
                stream.release(from);
                assert(stream@.marks =~= old(stream)@.marks);
                return Err(error);
            },
        }
        let ghost end = stream@;
        assert(old(self).parses(*self, start.marked(), end, None));
        let to = stream.checkpoint();
        match between.parse(stream) {
            Ok(()) => {
                assert(opened.parses(between, end.marked(), stream@, None));
                Ok(stream.range_from_to_checkpoint(from, to))
            },
            Err(error) => {
                let ghost at = stream@;
                assert(opened.parses(between, end.marked(), at, Some(error)));
                stream.release(to);
                stream.release(from);
                assert(stream@.marks =~= old(stream)@.marks);
                Err(error)
            },
        }
    }
}

/// Whether `parser` can be applied between two applications of `between` to a stream in the state
/// `from`.
pub open spec fn ready_between<Q: Parser, P: Parser>(
    parser: Q,
    between: P,
    from: StreamState,
) -> bool {
    &&& between.ready(from)
    &&& forall|opened: P, start: StreamState| #[trigger]
        between.parses(opened, from, start, None) ==> {
            &&& parser.ready(start.marked())
            &&& forall|after: Q, end: StreamState| #[trigger]
                parser.parses(after, start.marked(), end, None) ==> opened.ready(end.marked())
        }
}

/// Whether `between`, `parser` and `between` again may turn the state `from` into `to` when the
/// sequence in the middle goes from the position `start` to the position `end`. The stream keeps
/// the sequence from its beginning on.
pub open spec fn gets_between<Q: Parser, P: Parser>(
    parser: Q,
    after: Q,
    between: P,
    from: StreamState,
    to: StreamState,
    start: nat,
    end: nat,
) -> bool {
    exists|opened: P, closed: P, first: StreamState, second: StreamState|
        {
            &&& first.pos == start
            &&& second.pos == end
            &&& between.parses(opened, from, first, None)
            &&& #[trigger] parser.parses(after, first.marked(), second, None)
            &&& #[trigger] opened.parses(closed, second.marked(), to, None)
        }
}

/// Whether one of `between`, `parser` and `between` again may fail with `error` and turn the state
/// `from` into `to`.
pub open spec fn fails_between<Q: Parser, P: Parser>(
    parser: Q,
    after: Q,
    between: P,
    from: StreamState,
    to: StreamState,
    error: ParserError,
) -> bool {
    ||| after == parser && exists|opened: P| #[trigger]
        between.parses(opened, from, to, Some(error))
    ||| exists|opened: P, first: StreamState, at: StreamState|
        {
            &&& #[trigger] between.parses(opened, from, first, None)
            &&& #[trigger] parser.parses(after, first.marked(), at, Some(error))
            &&& to == at.released(first.pos)
        }
    ||| exists|opened: P, closed: P, first: StreamState, second: StreamState, at: StreamState|
        {
            &&& between.parses(opened, from, first, None)
            &&& #[trigger] parser.parses(after, first.marked(), second, None)
            &&& #[trigger] opened.parses(closed, second.marked(), at, Some(error))
            &&& to == at.released(second.pos).released(first.pos)
        }
}

/// The error of a result, if it is one.
pub open spec fn failure<T>(r: Result<T, ParserError>) -> Option<ParserError> {
    match r {
        Ok(_) => None,
        Err(error) => Some(error),
    }
}

} // verus!
