//! Combinators which go on when the input does not match.
use crate::errors::ParserError;
use crate::parser;
use crate::parser::Parser;
use crate::streamer::{StreamState, Streamer};
use vstd::multiset::Multiset;
use vstd::prelude::*;

verus! {

/// Whether an outcome says that the input does not match.
pub open spec fn is_mismatch(error: Option<ParserError>) -> bool {
    match error {
        Some(error) => error.mismatch(),
        None => false,
    }
}

/// Whether a parser found that the input does not match.
pub(crate) fn found_mismatch<T>(r: &Result<T, ParserError>) -> (b: bool)
    ensures
        b == is_mismatch(parser::failure(*r)),
{
    match r {
        Ok(_) => false,
        Err(error) => error.is_mismatch(),
    }
}

/// Whether the parser, applied to a stream in the state `from`, leaves it where it is if the input
/// does not match.
pub open spec fn stays<P: Parser>(parser: P, from: StreamState) -> bool {
    &&& forall|after: P, to: StreamState, error: ParserError| #[trigger]
        parser.parses(after, from, to, Some(error)) && error.mismatch() ==> to.pos == from.pos
    &&& forall|after: P, to: StreamState, error: ParserError| #[trigger]
        parser.gets(after, from, to, Err(error)) && error.mismatch() ==> to.pos == from.pos
}

/// Whether `parse` may find that the input does not match, turn the parser into `after`, and leave
/// the stream where it is.
pub open spec fn mismatches<P: Parser>(
    parser: P,
    after: P,
    from: StreamState,
    to: StreamState,
) -> bool {
    &&& to.pos == from.pos
    &&& exists|error: ParserError| #[trigger]
        parser.parses(after, from, to, Some(error)) && error.mismatch()
}

/// Whether `get` may find that the input does not match, turn the parser into `after`, and leave
/// the stream where it is.
pub open spec fn get_mismatches<P: Parser>(
    parser: P,
    after: P,
    from: StreamState,
    to: StreamState,
) -> bool {
    &&& to.pos == from.pos
    &&& exists|error: ParserError| #[trigger]
        parser.gets(after, from, to, Err(error)) && error.mismatch()
}

/// Whether the parser, applied to a stream in the state `from`, leaves it where it is if it fails
/// without the stream failing.
pub open spec fn stays_unless_stream_fails<P: Parser>(parser: P, from: StreamState) -> bool {
    &&& forall|after: P, to: StreamState, error: ParserError| #[trigger]
        parser.parses(after, from, to, Some(error)) && !error.stream_failure() ==> to.pos
            == from.pos
    &&& forall|after: P, to: StreamState, error: ParserError| #[trigger]
        parser.gets(after, from, to, Err(error)) && !error.stream_failure() ==> to.pos == from.pos
}

/// Whether `parse` may fail without the stream failing, turn the parser into `after`, and leave the
/// stream where it is.
pub open spec fn gives_up<P: Parser>(
    parser: P,
    after: P,
    from: StreamState,
    to: StreamState,
) -> bool {
    &&& to.pos == from.pos
    &&& exists|error: ParserError| #[trigger]
        parser.parses(after, from, to, Some(error)) && !error.stream_failure()
}

/// Whether `get` may fail without the stream failing, turn the parser into `after`, and leave the
/// stream where it is.
pub open spec fn get_gives_up<P: Parser>(
    parser: P,
    after: P,
    from: StreamState,
    to: StreamState,
) -> bool {
    &&& to.pos == from.pos
    &&& exists|error: ParserError| #[trigger]
        parser.gets(after, from, to, Err(error)) && !error.stream_failure()
}

/// Goes back to where it started if the parser fails.
pub struct Attempt<P>(P);

impl<P> Attempt<P> {
    /// The parser that is attempted.
    pub closed spec fn inner(&self) -> P {
        self.0
    }
}

impl<P: Parser> Parser for Attempt<P> {
    type Input = P::Input;

    type Output = P::Output;

    open spec fn ready(&self, from: StreamState) -> bool {
        self.inner().ready(from.marked())
    }

    /// The stream keeps its text from where the parser started while the parser is applied.
    open spec fn parses(
        &self,
        after: Self,
        from: StreamState,
        to: StreamState,
        error: Option<ParserError>,
    ) -> bool {
        exists|there: StreamState|
            {
                &&& #[trigger] self.inner().parses(after.inner(), from.marked(), there, error)
                &&& if error is Some {
                    there.resets(to, from.pos)
                } else {
                    to == there.released(from.pos)
                }
            }
    }

    open spec fn gets(
        &self,
        after: Self,
        from: StreamState,
        to: StreamState,
        r: Result<P::Output, ParserError>,
    ) -> bool {
        exists|there: StreamState|
            {
                &&& #[trigger] self.inner().gets(after.inner(), from.marked(), there, r)
                &&& if r is Err {
                    there.resets(to, from.pos)
                } else {
                    to == there.released(from.pos)
                }
            }
    }

    open spec fn held(output: P::Output) -> Multiset<nat> {
        P::held(output)
    }

    fn parse(&mut self, stream: &mut P::Input) -> (r: Result<(), ParserError>) {
        let ghost from = stream@;
        let checkpoint = stream.checkpoint();
        let r = self.0.parse(stream);
        let ghost there = stream@;
        if r.is_err() {
            stream.reset(checkpoint);
        } else {
            stream.release(checkpoint);
        }
        proof {
            assert(old(self).inner().parses(
                self.inner(),
                from.marked(),
                there,
                parser::failure(r),
            ));
            assert(stream@.marks =~= from.marks);
        }
        r
    }

    fn get(&mut self, stream: &mut P::Input) -> (r: Result<P::Output, ParserError>) {
        let ghost from = stream@;
        let checkpoint = stream.checkpoint();
        let r = self.0.get(stream);
        let ghost there = stream@;
        if r.is_err() {
            stream.reset(checkpoint);
        } else {
            stream.release(checkpoint);
        }
        proof {
            assert(old(self).inner().gets(self.inner(), from.marked(), there, r));
            assert(r is Ok ==> stream@.marks =~= from.marks.add(P::held(r->Ok_0)));
            assert(r is Err ==> stream@.marks =~= from.marks);
        }
        r
    }

    fn discard(output: P::Output, stream: &mut P::Input) {
        P::discard(output, stream)
    }
}

/// Applies the given parser, and goes back to where it started if the parser fails, also when the
/// stream does.
pub fn attempt<S: Streamer, P: Parser<Input = S>>(parser: P) -> (r: Attempt<P>)
    ensures
        r.inner() == parser,
{
    Attempt(parser)
}

/// Succeeds without a value if the input does not match.
pub struct Maybe<P>(P);

impl<P> Maybe<P> {
    /// The optional parser.
    pub closed spec fn inner(&self) -> P {
        self.0
    }
}

impl<P: Parser> Parser for Maybe<P> {
    type Input = P::Input;

    type Output = Option<P::Output>;

    open spec fn ready(&self, from: StreamState) -> bool {
        self.inner().ready(from) && stays(self.inner(), from)
    }

    open spec fn parses(
        &self,
        after: Self,
        from: StreamState,
        to: StreamState,
        error: Option<ParserError>,
    ) -> bool {
        match error {
            None => {
                ||| self.inner().parses(after.inner(), from, to, None)
                ||| mismatches(self.inner(), after.inner(), from, to)
            },
            Some(e) => !e.mismatch() && self.inner().parses(after.inner(), from, to, error),
        }
    }

    open spec fn gets(
        &self,
        after: Self,
        from: StreamState,
        to: StreamState,
        r: Result<Option<P::Output>, ParserError>,
    ) -> bool {
        match r {
            Ok(Some(output)) => self.inner().gets(after.inner(), from, to, Ok(output)),
            Ok(None) => get_mismatches(self.inner(), after.inner(), from, to),
            Err(e) => !e.mismatch() && self.inner().gets(after.inner(), from, to, Err(e)),
        }
    }

    open spec fn held(output: Option<P::Output>) -> Multiset<nat> {
        match output {
            Some(inner) => P::held(inner),
            None => Multiset::empty(),
        }
    }

    fn parse(&mut self, stream: &mut P::Input) -> (r: Result<(), ParserError>) {
        match self.0.parse(stream) {
            Err(error) if error.is_mismatch() => Ok(()),
            r => r,
        }
    }

    fn get(&mut self, stream: &mut P::Input) -> (r: Result<Option<P::Output>, ParserError>) {
        match self.0.get(stream) {
            Ok(output) => Ok(Some(output)),
            Err(error) => {
                if error.is_mismatch() {
                    assert(stream@.marks =~= old(stream)@.marks.add(Multiset::empty()));
                    Ok(None)
                } else {
                    Err(error)
                }
            },
        }
    }

    fn discard(output: Option<P::Output>, stream: &mut P::Input) {
        match output {
            Some(inner) => P::discard(inner, stream),
            None => {
                assert(stream@.marks =~= stream@.marks.sub(Multiset::empty()));
            },
        }
    }
}

/// Applies the given parser, and succeeds without a value if the input does not match.
pub fn maybe<P: Parser>(parser: P) -> (r: Maybe<P>)
    ensures
        r.inner() == parser,
{
    Maybe(parser)
}

} // verus!
