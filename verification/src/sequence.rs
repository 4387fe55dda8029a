//! Tuples of parsers, which are applied one after the other.
use crate::errors::ParserError;
use crate::parser;
use crate::parser::Parser;
use crate::streamer::StreamState;
use vstd::multiset::Multiset;
use vstd::prelude::*;

verus! {

/// Whether `at` holds the states that a stream goes through, from `from` to `to`, when `count`
/// parsers are applied in order and the parser `last` is the last one that is applied: this is the
/// one that fails with `error`, or the last of all if there is none.
pub open spec fn route(
    at: Seq<StreamState>,
    last: int,
    count: int,
    from: StreamState,
    to: StreamState,
    error: Option<ParserError>,
) -> bool {
    &&& 0 <= last < count
    &&& error is None ==> last == count - 1
    &&& at.len() == last + 2
    &&& at[0] == from
    &&& at[last + 1] == to
}

/// Like `route` when the parser `last` fails and the outputs of those before give back what they
/// hold.
pub open spec fn undone(
    at: Seq<StreamState>,
    last: int,
    count: int,
    from: StreamState,
    to: StreamState,
) -> bool {
    &&& 0 <= last < count
    &&& at.len() == last + 2
    &&& at[0] == from
    &&& at[last + 1].with_marks(from.marks) == to
}

/// What the `i`-th parser does between the states `from` and `to` when the parser `last` is the
/// last one that is applied. It is not applied if it comes after that.
pub open spec fn step<P: Parser>(
    parser: P,
    after: P,
    from: StreamState,
    to: StreamState,
    i: int,
    last: int,
    error: Option<ParserError>,
) -> bool {
    if i < last {
        parser.parses(after, from, to, None)
    } else if i == last {
        parser.parses(after, from, to, error)
    } else {
        after == parser
    }
}

/// What the `i`-th parser does between the states `from` and `to` when the parser `last` fails with
/// `error` and all before return an output.
pub open spec fn tries<P: Parser>(
    parser: P,
    after: P,
    from: StreamState,
    to: StreamState,
    i: int,
    last: int,
    error: ParserError,
) -> bool {
    if i < last {
        exists|output: P::Output| #[trigger] parser.gets(after, from, to, Ok(output))
    } else if i == last {
        parser.gets(after, from, to, Err(error))
    } else {
        after == parser
    }
}

/// Applies one parser.
impl<A: Parser> Parser for (A,) {
    type Input = A::Input;

    type Output = (A::Output,);

    open spec fn ready(&self, from: StreamState) -> bool {
        self.0.ready(from)
    }

    open spec fn parses(
        &self,
        after: Self,
        from: StreamState,
        to: StreamState,
        error: Option<ParserError>,
    ) -> bool {
        exists|at: Seq<StreamState>, last: int|
            {
                &&& #[trigger] route(at, last, 1, from, to, error)
                &&& step(self.0, after.0, at[0], at[1], 0, last, error)
            }
    }

    open spec fn gets(
        &self,
        after: Self,
        from: StreamState,
        to: StreamState,
        r: Result<Self::Output, ParserError>,
    ) -> bool {
        match r {
            Ok(output) => exists|at: Seq<StreamState>|
                {
                    &&& #[trigger] route(at, 0, 1, from, to, None)
                    &&& self.0.gets(after.0, at[0], at[1], Ok(output.0))
                },
            Err(error) => exists|at: Seq<StreamState>, last: int|
                {
                    &&& #[trigger] undone(at, last, 1, from, to)
                    &&& tries(self.0, after.0, at[0], at[1], 0, last, error)
                },
        }
    }

    open spec fn held(output: Self::Output) -> Multiset<nat> {
        A::held(output.0)
    }

    fn parse(&mut self, stream: &mut Self::Input) -> (r: Result<(), ParserError>) {
        let ghost from = stream@;
        let ghost at = seq![from];
        let r = self.0.parse(stream);
        let ghost at = at.push(stream@);
        assert(route(at, 0, 1, from, stream@, parser::failure(r)));
        r
    }

    fn get(&mut self, stream: &mut Self::Input) -> (r: Result<Self::Output, ParserError>) {
        let ghost from = stream@;
        let ghost at = seq![from];
        let r = self.0.get(stream);
        let ghost at = at.push(stream@);
        let a = match r {
            Ok(a) => a,
            Err(error) => {
                assert(stream@.marks =~= from.marks);
                assert(undone(at, 0, 1, from, stream@));
                return Err(error);
            },
        };
        assert(old(self).0.gets(self.0, at[0], at[1], Ok(a)));
        let output = (a,);
        proof {
            assert(route(at, 0, 1, from, stream@, None));
            assert(stream@.marks =~= from.marks.add(Self::held(output)));
        }
        Ok(output)
    }

    fn discard(output: Self::Output, stream: &mut Self::Input) {
        let ghost marks = stream@.marks;
        let (a,) = output;
        A::discard(a, stream);
        assert(stream@.marks =~= marks.sub(Self::held(output)));
    }
}

/// Applies two parsers in order.
impl<A, B> Parser for (A, B) where
    A: Parser,
    B: Parser<Input = A::Input>,
 {
    type Input = A::Input;

    type Output = (A::Output, B::Output);

    open spec fn ready(&self, from: StreamState) -> bool {
        let rest = (self.1,);
        &&& self.0.ready(from)
        &&& forall|after: A, at: StreamState| #[trigger]
            self.0.parses(after, from, at, None) ==> rest.ready(at)
        &&& forall|after: A, at: StreamState, output: A::Output| #[trigger]
            self.0.gets(after, from, at, Ok(output)) ==> rest.ready(at)
    }

    open spec fn parses(
        &self,
        after: Self,
        from: StreamState,
        to: StreamState,
        error: Option<ParserError>,
    ) -> bool {
        exists|at: Seq<StreamState>, last: int|
            {
                &&& #[trigger] route(at, last, 2, from, to, error)
                &&& step(self.0, after.0, at[0], at[1], 0, last, error)
                &&& step(self.1, after.1, at[1], at[2], 1, last, error)
            }
    }

    open spec fn gets(
        &self,
        after: Self,
        from: StreamState,
        to: StreamState,
        r: Result<Self::Output, ParserError>,
    ) -> bool {
        match r {
            Ok(output) => exists|at: Seq<StreamState>|
                {
                    &&& #[trigger] route(at, 1, 2, from, to, None)
                    &&& self.0.gets(after.0, at[0], at[1], Ok(output.0))
                    &&& self.1.gets(after.1, at[1], at[2], Ok(output.1))
                },
            Err(error) => exists|at: Seq<StreamState>, last: int|
                {
                    &&& #[trigger] undone(at, last, 2, from, to)
                    &&& tries(self.0, after.0, at[0], at[1], 0, last, error)
                    &&& tries(self.1, after.1, at[1], at[2], 1, last, error)
                },
        }
    }

    open spec fn held(output: Self::Output) -> Multiset<nat> {
        A::held(output.0).add(B::held(output.1))
    }

    fn parse(&mut self, stream: &mut Self::Input) -> (r: Result<(), ParserError>) {
        let ghost from = stream@;
        let ghost at = seq![from];
        let r = self.0.parse(stream);
        let ghost at = at.push(stream@);
        if let Err(error) = r {
            assert(route(at, 0, 2, from, stream@, Some(error)));
            return Err(error);
        }
        let r = self.1.parse(stream);
        let ghost at = at.push(stream@);
        assert(route(at, 1, 2, from, stream@, parser::failure(r)));
        r
    }

    fn get(&mut self, stream: &mut Self::Input) -> (r: Result<Self::Output, ParserError>) {
        let ghost from = stream@;
        let ghost at = seq![from];
        let r = self.0.get(stream);
        let ghost at = at.push(stream@);
        let a = match r {
            Ok(a) => a,
            Err(error) => {
                assert(stream@.marks =~= from.marks);
                assert(undone(at, 0, 2, from, stream@));
                return Err(error);
            },
        };
        assert(old(self).0.gets(self.0, at[0], at[1], Ok(a)));
        let r = self.1.get(stream);
        let ghost at = at.push(stream@);
        let b = match r {
            Ok(b) => b,
            Err(error) => {
                A::discard(a, stream);
                assert(stream@.marks =~= from.marks);
                assert(undone(at, 1, 2, from, stream@));
                return Err(error);
            },
        };
        assert(old(self).1.gets(self.1, at[1], at[2], Ok(b)));
        let output = (a, b);
        proof {
            assert(route(at, 1, 2, from, stream@, None));
            assert(stream@.marks =~= from.marks.add(Self::held(output)));
        }
        Ok(output)
    }

    fn discard(output: Self::Output, stream: &mut Self::Input) {
        let ghost marks = stream@.marks;
        let (a, b) = output;
        B::discard(b, stream);
        A::discard(a, stream);
        assert(stream@.marks =~= marks.sub(Self::held(output)));
    }
}

/// Applies three parsers in order.
impl<A, B, C> Parser for (A, B, C) where
    A: Parser,
    B: Parser<Input = A::Input>,
    C: Parser<Input = A::Input>,
 {
    type Input = A::Input;

    type Output = (A::Output, B::Output, C::Output);

    open spec fn ready(&self, from: StreamState) -> bool {
        let rest = (self.1, self.2);
        &&& self.0.ready(from)
        &&& forall|after: A, at: StreamState| #[trigger]
            self.0.parses(after, from, at, None) ==> rest.ready(at)
        &&& forall|after: A, at: StreamState, output: A::Output| #[trigger]
            self.0.gets(after, from, at, Ok(output)) ==> rest.ready(at)
    }

    open spec fn parses(
        &self,
        after: Self,
        from: StreamState,
        to: StreamState,
        error: Option<ParserError>,
    ) -> bool {
        exists|at: Seq<StreamState>, last: int|
            {
                &&& #[trigger] route(at, last, 3, from, to, error)
                &&& step(self.0, after.0, at[0], at[1], 0, last, error)
                &&& step(self.1, after.1, at[1], at[2], 1, last, error)
                &&& step(self.2, after.2, at[2], at[3], 2, last, error)
            }
    }

    open spec fn gets(
        &self,
        after: Self,
        from: StreamState,
        to: StreamState,
        r: Result<Self::Output, ParserError>,
    ) -> bool {
        match r {
            Ok(output) => exists|at: Seq<StreamState>|
                {
                    &&& #[trigger] route(at, 2, 3, from, to, None)
                    &&& self.0.gets(after.0, at[0], at[1], Ok(output.0))
                    &&& self.1.gets(after.1, at[1], at[2], Ok(output.1))
                    &&& self.2.gets(after.2, at[2], at[3], Ok(output.2))
                },
            Err(error) => exists|at: Seq<StreamState>, last: int|
                {
                    &&& #[trigger] undone(at, last, 3, from, to)
                    &&& tries(self.0, after.0, at[0], at[1], 0, last, error)
                    &&& tries(self.1, after.1, at[1], at[2], 1, last, error)
                    &&& tries(self.2, after.2, at[2], at[3], 2, last, error)
                },
        }
    }

    open spec fn held(output: Self::Output) -> Multiset<nat> {
        A::held(output.0).add(B::held(output.1)).add(C::held(output.2))
    }

    fn parse(&mut self, stream: &mut Self::Input) -> (r: Result<(), ParserError>) {
        let ghost from = stream@;
        let ghost at = seq![from];
        let r = self.0.parse(stream);
        let ghost at = at.push(stream@);
        if let Err(error) = r {
            assert(route(at, 0, 3, from, stream@, Some(error)));
            return Err(error);
        }
        let r = self.1.parse(stream);
        let ghost at = at.push(stream@);
        if let Err(error) = r {
            assert(route(at, 1, 3, from, stream@, Some(error)));
            return Err(error);
        }
        let r = self.2.parse(stream);
        let ghost at = at.push(stream@);
        assert(route(at, 2, 3, from, stream@, parser::failure(r)));
        r
    }

    fn get(&mut self, stream: &mut Self::Input) -> (r: Result<Self::Output, ParserError>) {
        let ghost from = stream@;
        let ghost at = seq![from];
        let r = self.0.get(stream);
        let ghost at = at.push(stream@);
        let a = match r {
            Ok(a) => a,
            Err(error) => {
                assert(stream@.marks =~= from.marks);
                assert(undone(at, 0, 3, from, stream@));
                return Err(error);
            },
        };
        assert(old(self).0.gets(self.0, at[0], at[1], Ok(a)));
        let r = self.1.get(stream);
        let ghost at = at.push(stream@);
        let b = match r {
            Ok(b) => b,
            Err(error) => {
                A::discard(a, stream);
                assert(stream@.marks =~= from.marks);
                assert(undone(at, 1, 3, from, stream@));
                return Err(error);
            },
        };
        assert(old(self).1.gets(self.1, at[1], at[2], Ok(b)));
        let r = self.2.get(stream);
        let ghost at = at.push(stream@);
        let c = match r {
            Ok(c) => c,
            Err(error) => {
                B::discard(b, stream);
                A::discard(a, stream);
                assert(stream@.marks =~= from.marks);
                assert(undone(at, 2, 3, from, stream@));
                return Err(error);
            },
        };
        assert(old(self).2.gets(self.2, at[2], at[3], Ok(c)));
        let output = (a, b, c);
        proof {
            assert(route(at, 2, 3, from, stream@, None));
            assert(stream@.marks =~= from.marks.add(Self::held(output)));
        }
        Ok(output)
    }

    fn discard(output: Self::Output, stream: &mut Self::Input) {
        let ghost marks = stream@.marks;
        let (a, b, c) = output;
        C::discard(c, stream);
        B::discard(b, stream);
        A::discard(a, stream);
        assert(stream@.marks =~= marks.sub(Self::held(output)));
    }
}

/// Applies four parsers in order.
impl<A, B, C, D> Parser for (A, B, C, D) where
    A: Parser,
    B: Parser<Input = A::Input>,
    C: Parser<Input = A::Input>,
    D: Parser<Input = A::Input>,
 {
    type Input = A::Input;

    type Output = (A::Output, B::Output, C::Output, D::Output);

    open spec fn ready(&self, from: StreamState) -> bool {
        let rest = (self.1, self.2, self.3);
        &&& self.0.ready(from)
        &&& forall|after: A, at: StreamState| #[trigger]
            self.0.parses(after, from, at, None) ==> rest.ready(at)
        &&& forall|after: A, at: StreamState, output: A::Output| #[trigger]
            self.0.gets(after, from, at, Ok(output)) ==> rest.ready(at)
    }

    open spec fn parses(
        &self,
        after: Self,
        from: StreamState,
        to: StreamState,
        error: Option<ParserError>,
    ) -> bool {
        exists|at: Seq<StreamState>, last: int|
            {
                &&& #[trigger] route(at, last, 4, from, to, error)
                &&& step(self.0, after.0, at[0], at[1], 0, last, error)
                &&& step(self.1, after.1, at[1], at[2], 1, last, error)
                &&& step(self.2, after.2, at[2], at[3], 2, last, error)
                &&& step(self.3, after.3, at[3], at[4], 3, last, error)
            }
    }

    open spec fn gets(
        &self,
        after: Self,
        from: StreamState,
        to: StreamState,
        r: Result<Self::Output, ParserError>,
    ) -> bool {
        match r {
            Ok(output) => exists|at: Seq<StreamState>|
                {
                    &&& #[trigger] route(at, 3, 4, from, to, None)
                    &&& self.0.gets(after.0, at[0], at[1], Ok(output.0))
                    &&& self.1.gets(after.1, at[1], at[2], Ok(output.1))
                    &&& self.2.gets(after.2, at[2], at[3], Ok(output.2))
                    &&& self.3.gets(after.3, at[3], at[4], Ok(output.3))
                },
            Err(error) => exists|at: Seq<StreamState>, last: int|
                {
                    &&& #[trigger] undone(at, last, 4, from, to)
                    &&& tries(self.0, after.0, at[0], at[1], 0, last, error)
                    &&& tries(self.1, after.1, at[1], at[2], 1, last, error)
                    &&& tries(self.2, after.2, at[2], at[3], 2, last, error)
                    &&& tries(self.3, after.3, at[3], at[4], 3, last, error)
                },
        }
    }

    open spec fn held(output: Self::Output) -> Multiset<nat> {
        A::held(output.0)
            .add(B::held(output.1))
            .add(C::held(output.2))
            .add(D::held(output.3))
    }

    fn parse(&mut self, stream: &mut Self::Input) -> (r: Result<(), ParserError>) {
        let ghost from = stream@;
        let ghost at = seq![from];
        let r = self.0.parse(stream);
        let ghost at = at.push(stream@);
        if let Err(error) = r {
            assert(route(at, 0, 4, from, stream@, Some(error)));
            return Err(error);
        }
        let r = self.1.parse(stream);
        let ghost at = at.push(stream@);
        if let Err(error) = r {
            assert(route(at, 1, 4, from, stream@, Some(error)));
            return Err(error);
        }
        let r = self.2.parse(stream);
        let ghost at = at.push(stream@);
        if let Err(error) = r {
            assert(route(at, 2, 4, from, stream@, Some(error)));
            return Err(error);
        }
        let r = self.3.parse(stream);
        let ghost at = at.push(stream@);
        assert(route(at, 3, 4, from, stream@, parser::failure(r)));
        r
    }

    fn get(&mut self, stream: &mut Self::Input) -> (r: Result<Self::Output, ParserError>) {
        let ghost from = stream@;
        let ghost at = seq![from];
        let r = self.0.get(stream);
        let ghost at = at.push(stream@);
        let a = match r {
            Ok(a) => a,
            Err(error) => {
                assert(stream@.marks =~= from.marks);
                assert(undone(at, 0, 4, from, stream@));
                return Err(error);
            },
        };
        assert(old(self).0.gets(self.0, at[0], at[1], Ok(a)));
        let r = self.1.get(stream);
        let ghost at = at.push(stream@);
        let b = match r {
            Ok(b) => b,
            Err(error) => {
                A::discard(a, stream);
                assert(stream@.marks =~= from.marks);
                assert(undone(at, 1, 4, from, stream@));
                return Err(error);
            },
        };
        assert(old(self).1.gets(self.1, at[1], at[2], Ok(b)));
        let r = self.2.get(stream);
        let ghost at = at.push(stream@);
        let c = match r {
            Ok(c) => c,
            Err(error) => {
                B::discard(b, stream);
                A::discard(a, stream);
                assert(stream@.marks =~= from.marks);
                assert(undone(at, 2, 4, from, stream@));
                return Err(error);
            },
        };
        assert(old(self).2.gets(self.2, at[2], at[3], Ok(c)));
        let r = self.3.get(stream);
        let ghost at = at.push(stream@);
        let d = match r {
            Ok(d) => d,
            Err(error) => {
                C::discard(c, stream);
                B::discard(b, stream);
                A::discard(a, stream);
                assert(stream@.marks =~= from.marks);
                assert(undone(at, 3, 4, from, stream@));
                return Err(error);
            },
        };
        assert(old(self).3.gets(self.3, at[3], at[4], Ok(d)));
        let output = (a, b, c, d);
        proof {
            assert(route(at, 3, 4, from, stream@, None));
            assert(stream@.marks =~= from.marks.add(Self::held(output)));
        }
        Ok(output)
    }

    fn discard(output: Self::Output, stream: &mut Self::Input) {
        let ghost marks = stream@.marks;
        let (a, b, c, d) = output;
        D::discard(d, stream);
        C::discard(c, stream);
        B::discard(b, stream);
        A::discard(a, stream);
        assert(stream@.marks =~= marks.sub(Self::held(output)));
    }
}

/// Applies five parsers in order.
impl<A, B, C, D, E> Parser for (A, B, C, D, E) where
    A: Parser,
    B: Parser<Input = A::Input>,
    C: Parser<Input = A::Input>,
    D: Parser<Input = A::Input>,
    E: Parser<Input = A::Input>,
 {
    type Input = A::Input;

    type Output = (A::Output, B::Output, C::Output, D::Output, E::Output);

    open spec fn ready(&self, from: StreamState) -> bool {
        let rest = (self.1, self.2, self.3, self.4);
        &&& self.0.ready(from)
        &&& forall|after: A, at: StreamState| #[trigger]
            self.0.parses(after, from, at, None) ==> rest.ready(at)
        &&& forall|after: A, at: StreamState, output: A::Output| #[trigger]
            self.0.gets(after, from, at, Ok(output)) ==> rest.ready(at)
    }

    open spec fn parses(
        &self,
        after: Self,
        from: StreamState,
        to: StreamState,
        error: Option<ParserError>,
    ) -> bool {
        exists|at: Seq<StreamState>, last: int|
            {
                &&& #[trigger] route(at, last, 5, from, to, error)
                &&& step(self.0, after.0, at[0], at[1], 0, last, error)
                &&& step(self.1, after.1, at[1], at[2], 1, last, error)
                &&& step(self.2, after.2, at[2], at[3], 2, last, error)
                &&& step(self.3, after.3, at[3], at[4], 3, last, error)
                &&& step(self.4, after.4, at[4], at[5], 4, last, error)
            }
    }

    open spec fn gets(
        &self,
        after: Self,
        from: StreamState,
        to: StreamState,
        r: Result<Self::Output, ParserError>,
    ) -> bool {
        match r {
            Ok(output) => exists|at: Seq<StreamState>|
                {
                    &&& #[trigger] route(at, 4, 5, from, to, None)
                    &&& self.0.gets(after.0, at[0], at[1], Ok(output.0))
                    &&& self.1.gets(after.1, at[1], at[2], Ok(output.1))
                    &&& self.2.gets(after.2, at[2], at[3], Ok(output.2))
                    &&& self.3.gets(after.3, at[3], at[4], Ok(output.3))
                    &&& self.4.gets(after.4, at[4], at[5], Ok(output.4))
                },
            Err(error) => exists|at: Seq<StreamState>, last: int|
                {
                    &&& #[trigger] undone(at, last, 5, from, to)
                    &&& tries(self.0, after.0, at[0], at[1], 0, last, error)
                    &&& tries(self.1, after.1, at[1], at[2], 1, last, error)
                    &&& tries(self.2, after.2, at[2], at[3], 2, last, error)
                    &&& tries(self.3, after.3, at[3], at[4], 3, last, error)
                    &&& tries(self.4, after.4, at[4], at[5], 4, last, error)
                },
        }
    }

    open spec fn held(output: Self::Output) -> Multiset<nat> {
        A::held(output.0)
            .add(B::held(output.1))
            .add(C::held(output.2))
            .add(D::held(output.3))
            .add(E::held(output.4))
    }

    fn parse(&mut self, stream: &mut Self::Input) -> (r: Result<(), ParserError>) {
        let ghost from = stream@;
        let ghost at = seq![from];
        let r = self.0.parse(stream);
        let ghost at = at.push(stream@);
        if let Err(error) = r {
            assert(route(at, 0, 5, from, stream@, Some(error)));
            return Err(error);
        }
        let r = self.1.parse(stream);
        let ghost at = at.push(stream@);
        if let Err(error) = r {
            assert(route(at, 1, 5, from, stream@, Some(error)));
            return Err(error);
        }
        let r = self.2.parse(stream);
        let ghost at = at.push(stream@);
        if let Err(error) = r {
            assert(route(at, 2, 5, from, stream@, Some(error)));
            return Err(error);
        }
        let r = self.3.parse(stream);
        let ghost at = at.push(stream@);
        if let Err(error) = r {
            assert(route(at, 3, 5, from, stream@, Some(error)));
            return Err(error);
        }
        let r = self.4.parse(stream);
        let ghost at = at.push(stream@);
        assert(route(at, 4, 5, from, stream@, parser::failure(r)));
        r
    }

    fn get(&mut self, stream: &mut Self::Input) -> (r: Result<Self::Output, ParserError>) {
        let ghost from = stream@;
        let ghost at = seq![from];
        let r = self.0.get(stream);
        let ghost at = at.push(stream@);
        let a = match r {
            Ok(a) => a,
            Err(error) => {
                assert(stream@.marks =~= from.marks);
                assert(undone(at, 0, 5, from, stream@));
                return Err(error);
            },
        };
        assert(old(self).0.gets(self.0, at[0], at[1], Ok(a)));
        let r = self.1.get(stream);
        let ghost at = at.push(stream@);
        let b = match r {
            Ok(b) => b,
            Err(error) => {
                A::discard(a, stream);
                assert(stream@.marks =~= from.marks);
                assert(undone(at, 1, 5, from, stream@));
                return Err(error);
            },
        };
        assert(old(self).1.gets(self.1, at[1], at[2], Ok(b)));
        let r = self.2.get(stream);
        let ghost at = at.push(stream@);
        let c = match r {
            Ok(c) => c,
            Err(error) => {
                B::discard(b, stream);
                A::discard(a, stream);
                assert(stream@.marks =~= from.marks);
                assert(undone(at, 2, 5, from, stream@));
                return Err(error);
            },
        };
        assert(old(self).2.gets(self.2, at[2], at[3], Ok(c)));
        let r = self.3.get(stream);
        let ghost at = at.push(stream@);
        let d = match r {
            Ok(d) => d,
            Err(error) => {
                C::discard(c, stream);
                B::discard(b, stream);
                A::discard(a, stream);
                assert(stream@.marks =~= from.marks);
                assert(undone(at, 3, 5, from, stream@));
                return Err(error);
            },
        };
        assert(old(self).3.gets(self.3, at[3], at[4], Ok(d)));
        let r = self.4.get(stream);
        let ghost at = at.push(stream@);
        let e = match r {
            Ok(e) => e,
            Err(error) => {
                D::discard(d, stream);
                C::discard(c, stream);
                B::discard(b, stream);
                A::discard(a, stream);
                assert(stream@.marks =~= from.marks);
                assert(undone(at, 4, 5, from, stream@));
                return Err(error);
            },
        };
        assert(old(self).4.gets(self.4, at[4], at[5], Ok(e)));
        let output = (a, b, c, d, e);
        proof {
            assert(route(at, 4, 5, from, stream@, None));
            assert(stream@.marks =~= from.marks.add(Self::held(output)));
        }
        Ok(output)
    }

    fn discard(output: Self::Output, stream: &mut Self::Input) {
        let ghost marks = stream@.marks;
        let (a, b, c, d, e) = output;
        E::discard(e, stream);
        D::discard(d, stream);
        C::discard(c, stream);
        B::discard(b, stream);
        A::discard(a, stream);
        assert(stream@.marks =~= marks.sub(Self::held(output)));
    }
}

/// Applies six parsers in order.
impl<A, B, C, D, E, F> Parser for (A, B, C, D, E, F) where
    A: Parser,
    B: Parser<Input = A::Input>,
    C: Parser<Input = A::Input>,
    D: Parser<Input = A::Input>,
    E: Parser<Input = A::Input>,
    F: Parser<Input = A::Input>,
 {
    type Input = A::Input;

    type Output = (A::Output, B::Output, C::Output, D::Output, E::Output, F::Output);

    open spec fn ready(&self, from: StreamState) -> bool {
        let rest = (self.1, self.2, self.3, self.4, self.5);
        &&& self.0.ready(from)
        &&& forall|after: A, at: StreamState| #[trigger]
            self.0.parses(after, from, at, None) ==> rest.ready(at)
        &&& forall|after: A, at: StreamState, output: A::Output| #[trigger]
            self.0.gets(after, from, at, Ok(output)) ==> rest.ready(at)
    }

    open spec fn parses(
        &self,
        after: Self,
        from: StreamState,
        to: StreamState,
        error: Option<ParserError>,
    ) -> bool {
        exists|at: Seq<StreamState>, last: int|
            {
                &&& #[trigger] route(at, last, 6, from, to, error)
                &&& step(self.0, after.0, at[0], at[1], 0, last, error)
                &&& step(self.1, after.1, at[1], at[2], 1, last, error)
                &&& step(self.2, after.2, at[2], at[3], 2, last, error)
                &&& step(self.3, after.3, at[3], at[4], 3, last, error)
                &&& step(self.4, after.4, at[4], at[5], 4, last, error)
                &&& step(self.5, after.5, at[5], at[6], 5, last, error)
            }
    }

    open spec fn gets(
        &self,
        after: Self,
        from: StreamState,
        to: StreamState,
        r: Result<Self::Output, ParserError>,
    ) -> bool {
        match r {
            Ok(output) => exists|at: Seq<StreamState>|
                {
                    &&& #[trigger] route(at, 5, 6, from, to, None)
                    &&& self.0.gets(after.0, at[0], at[1], Ok(output.0))
                    &&& self.1.gets(after.1, at[1], at[2], Ok(output.1))
                    &&& self.2.gets(after.2, at[2], at[3], Ok(output.2))
                    &&& self.3.gets(after.3, at[3], at[4], Ok(output.3))
                    &&& self.4.gets(after.4, at[4], at[5], Ok(output.4))
                    &&& self.5.gets(after.5, at[5], at[6], Ok(output.5))
                },
            Err(error) => exists|at: Seq<StreamState>, last: int|
                {
                    &&& #[trigger] undone(at, last, 6, from, to)
                    &&& tries(self.0, after.0, at[0], at[1], 0, last, error)
                    &&& tries(self.1, after.1, at[1], at[2], 1, last, error)
                    &&& tries(self.2, after.2, at[2], at[3], 2, last, error)
                    &&& tries(self.3, after.3, at[3], at[4], 3, last, error)
                    &&& tries(self.4, after.4, at[4], at[5], 4, last, error)
                    &&& tries(self.5, after.5, at[5], at[6], 5, last, error)
                },
        }
    }

    open spec fn held(output: Self::Output) -> Multiset<nat> {
        A::held(output.0)
            .add(B::held(output.1))
            .add(C::held(output.2))
            .add(D::held(output.3))
            .add(E::held(output.4))
            .add(F::held(output.5))
    }

    fn parse(&mut self, stream: &mut Self::Input) -> (r: Result<(), ParserError>) {
        let ghost from = stream@;
        let ghost at = seq![from];
        let r = self.0.parse(stream);
        let ghost at = at.push(stream@);
        if let Err(error) = r {
            assert(route(at, 0, 6, from, stream@, Some(error)));
            return Err(error);
        }
        let r = self.1.parse(stream);
        let ghost at = at.push(stream@);
        if let Err(error) = r {
            assert(route(at, 1, 6, from, stream@, Some(error)));
            return Err(error);
        }
        let r = self.2.parse(stream);
        let ghost at = at.push(stream@);
        if let Err(error) = r {
            assert(route(at, 2, 6, from, stream@, Some(error)));
            return Err(error);
        }
        let r = self.3.parse(stream);
        let ghost at = at.push(stream@);
        if let Err(error) = r {
            assert(route(at, 3, 6, from, stream@, Some(error)));
            return Err(error);
        }
        let r = self.4.parse(stream);
        let ghost at = at.push(stream@);
        if let Err(error) = r {
            assert(route(at, 4, 6, from, stream@, Some(error)));
            return Err(error);
        }
        let r = self.5.parse(stream);
        let ghost at = at.push(stream@);
        assert(route(at, 5, 6, from, stream@, parser::failure(r)));
        r
    }

    fn get(&mut self, stream: &mut Self::Input) -> (r: Result<Self::Output, ParserError>) {
        let ghost from = stream@;
        let ghost at = seq![from];
        let r = self.0.get(stream);
        let ghost at = at.push(stream@);
        let a = match r {
            Ok(a) => a,
            Err(error) => {
                assert(stream@.marks =~= from.marks);
                assert(undone(at, 0, 6, from, stream@));
                return Err(error);
            },
        };
        assert(old(self).0.gets(self.0, at[0], at[1], Ok(a)));
        let r = self.1.get(stream);
        let ghost at = at.push(stream@);
        let b = match r {
            Ok(b) => b,
            Err(error) => {
                A::discard(a, stream);
                assert(stream@.marks =~= from.marks);
                assert(undone(at, 1, 6, from, stream@));
                return Err(error);
            },
        };
        assert(old(self).1.gets(self.1, at[1], at[2], Ok(b)));
        let r = self.2.get(stream);
        let ghost at = at.push(stream@);
        let c = match r {
            Ok(c) => c,
            Err(error) => {
                B::discard(b, stream);
                A::discard(a, stream);
                assert(stream@.marks =~= from.marks);
                assert(undone(at, 2, 6, from, stream@));
                return Err(error);
            },
        };
        assert(old(self).2.gets(self.2, at[2], at[3], Ok(c)));
        let r = self.3.get(stream);
        let ghost at = at.push(stream@);
        let d = match r {
            Ok(d) => d,
            Err(error) => {
                C::discard(c, stream);
                B::discard(b, stream);
                A::discard(a, stream);
                assert(stream@.marks =~= from.marks);
                assert(undone(at, 3, 6, from, stream@));
                return Err(error);
            },
        };
        assert(old(self).3.gets(self.3, at[3], at[4], Ok(d)));
        let r = self.4.get(stream);
        let ghost at = at.push(stream@);
        let e = match r {
            Ok(e) => e,
            Err(error) => {
                D::discard(d, stream);
                C::discard(c, stream);
                B::discard(b, stream);
                A::discard(a, stream);
                assert(stream@.marks =~= from.marks);
                assert(undone(at, 4, 6, from, stream@));
                return Err(error);
            },
        };
        assert(old(self).4.gets(self.4, at[4], at[5], Ok(e)));
        let r = self.5.get(stream);
        let ghost at = at.push(stream@);
        let f = match r {
            Ok(f) => f,
            Err(error) => {
                E::discard(e, stream);
                D::discard(d, stream);
                C::discard(c, stream);
                B::discard(b, stream);
                A::discard(a, stream);
                assert(stream@.marks =~= from.marks);
                assert(undone(at, 5, 6, from, stream@));
                return Err(error);
            },
        };
        assert(old(self).5.gets(self.5, at[5], at[6], Ok(f)));
        let output = (a, b, c, d, e, f);
        proof {
            assert(route(at, 5, 6, from, stream@, None));
            assert(stream@.marks =~= from.marks.add(Self::held(output)));
        }
        Ok(output)
    }

    fn discard(output: Self::Output, stream: &mut Self::Input) {
        let ghost marks = stream@.marks;
        let (a, b, c, d, e, f) = output;
        F::discard(f, stream);
        E::discard(e, stream);
        D::discard(d, stream);
        C::discard(c, stream);
        B::discard(b, stream);
        A::discard(a, stream);
        assert(stream@.marks =~= marks.sub(Self::held(output)));
    }
}

/// Applies seven parsers in order.
impl<A, B, C, D, E, F, G> Parser for (A, B, C, D, E, F, G) where
    A: Parser,
    B: Parser<Input = A::Input>,
    C: Parser<Input = A::Input>,
    D: Parser<Input = A::Input>,
    E: Parser<Input = A::Input>,
    F: Parser<Input = A::Input>,
    G: Parser<Input = A::Input>,
 {
    type Input = A::Input;

    type Output = (A::Output, B::Output, C::Output, D::Output, E::Output, F::Output, G::Output);

    open spec fn ready(&self, from: StreamState) -> bool {
        let rest = (self.1, self.2, self.3, self.4, self.5, self.6);
        &&& self.0.ready(from)
        &&& forall|after: A, at: StreamState| #[trigger]
            self.0.parses(after, from, at, None) ==> rest.ready(at)
        &&& forall|after: A, at: StreamState, output: A::Output| #[trigger]
            self.0.gets(after, from, at, Ok(output)) ==> rest.ready(at)
    }

    open spec fn parses(
        &self,
        after: Self,
        from: StreamState,
        to: StreamState,
        error: Option<ParserError>,
    ) -> bool {
        exists|at: Seq<StreamState>, last: int|
            {
                &&& #[trigger] route(at, last, 7, from, to, error)
                &&& step(self.0, after.0, at[0], at[1], 0, last, error)
                &&& step(self.1, after.1, at[1], at[2], 1, last, error)
                &&& step(self.2, after.2, at[2], at[3], 2, last, error)
                &&& step(self.3, after.3, at[3], at[4], 3, last, error)
                &&& step(self.4, after.4, at[4], at[5], 4, last, error)
                &&& step(self.5, after.5, at[5], at[6], 5, last, error)
                &&& step(self.6, after.6, at[6], at[7], 6, last, error)
            }
    }

    open spec fn gets(
        &self,
        after: Self,
        from: StreamState,
        to: StreamState,
        r: Result<Self::Output, ParserError>,
    ) -> bool {
        match r {
            Ok(output) => exists|at: Seq<StreamState>|
                {
                    &&& #[trigger] route(at, 6, 7, from, to, None)
                    &&& self.0.gets(after.0, at[0], at[1], Ok(output.0))
                    &&& self.1.gets(after.1, at[1], at[2], Ok(output.1))
                    &&& self.2.gets(after.2, at[2], at[3], Ok(output.2))
                    &&& self.3.gets(after.3, at[3], at[4], Ok(output.3))
                    &&& self.4.gets(after.4, at[4], at[5], Ok(output.4))
                    &&& self.5.gets(after.5, at[5], at[6], Ok(output.5))
                    &&& self.6.gets(after.6, at[6], at[7], Ok(output.6))
                },
            Err(error) => exists|at: Seq<StreamState>, last: int|
                {
                    &&& #[trigger] undone(at, last, 7, from, to)
                    &&& tries(self.0, after.0, at[0], at[1], 0, last, error)
                    &&& tries(self.1, after.1, at[1], at[2], 1, last, error)
                    &&& tries(self.2, after.2, at[2], at[3], 2, last, error)
                    &&& tries(self.3, after.3, at[3], at[4], 3, last, error)
                    &&& tries(self.4, after.4, at[4], at[5], 4, last, error)
                    &&& tries(self.5, after.5, at[5], at[6], 5, last, error)
                    &&& tries(self.6, after.6, at[6], at[7], 6, last, error)
                },
        }
    }

    open spec fn held(output: Self::Output) -> Multiset<nat> {
        A::held(output.0)
            .add(B::held(output.1))
            .add(C::held(output.2))
            .add(D::held(output.3))
            .add(E::held(output.4))
            .add(F::held(output.5))
            .add(G::held(output.6))
    }

    fn parse(&mut self, stream: &mut Self::Input) -> (r: Result<(), ParserError>) {
        let ghost from = stream@;
        let ghost at = seq![from];
        let r = self.0.parse(stream);
        let ghost at = at.push(stream@);
        if let Err(error) = r {
            assert(route(at, 0, 7, from, stream@, Some(error)));
            return Err(error);
        }
        let r = self.1.parse(stream);
        let ghost at = at.push(stream@);
        if let Err(error) = r {
            assert(route(at, 1, 7, from, stream@, Some(error)));
            return Err(error);
        }
        let r = self.2.parse(stream);
        let ghost at = at.push(stream@);
        if let Err(error) = r {
            assert(route(at, 2, 7, from, stream@, Some(error)));
            return Err(error);
        }
        let r = self.3.parse(stream);
        let ghost at = at.push(stream@);
        if let Err(error) = r {
            assert(route(at, 3, 7, from, stream@, Some(error)));
            return Err(error);
        }
        let r = self.4.parse(stream);
        let ghost at = at.push(stream@);
        if let Err(error) = r {
            assert(route(at, 4, 7, from, stream@, Some(error)));
            return Err(error);
        }
        let r = self.5.parse(stream);
        let ghost at = at.push(stream@);
        if let Err(error) = r {
            assert(route(at, 5, 7, from, stream@, Some(error)));
            return Err(error);
        }
        let r = self.6.parse(stream);
        let ghost at = at.push(stream@);
        assert(route(at, 6, 7, from, stream@, parser::failure(r)));
        r
    }

    fn get(&mut self, stream: &mut Self::Input) -> (r: Result<Self::Output, ParserError>) {
        let ghost from = stream@;
        let ghost at = seq![from];
        let r = self.0.get(stream);
        let ghost at = at.push(stream@);
        let a = match r {
            Ok(a) => a,
            Err(error) => {
                assert(stream@.marks =~= from.marks);
                assert(undone(at, 0, 7, from, stream@));
                return Err(error);
            },
        };
        assert(old(self).0.gets(self.0, at[0], at[1], Ok(a)));
        let r = self.1.get(stream);
        let ghost at = at.push(stream@);
        let b = match r {
            Ok(b) => b,
            Err(error) => {
                A::discard(a, stream);
                assert(stream@.marks =~= from.marks);
                assert(undone(at, 1, 7, from, stream@));
                return Err(error);
            },
        };
        assert(old(self).1.gets(self.1, at[1], at[2], Ok(b)));
        let r = self.2.get(stream);
        let ghost at = at.push(stream@);
        let c = match r {
            Ok(c) => c,
            Err(error) => {
                B::discard(b, stream);
                A::discard(a, stream);
                assert(stream@.marks =~= from.marks);
                assert(undone(at, 2, 7, from, stream@));
                return Err(error);
            },
        };
        assert(old(self).2.gets(self.2, at[2], at[3], Ok(c)));
        let r = self.3.get(stream);
        let ghost at = at.push(stream@);
        let d = match r {
            Ok(d) => d,
            Err(error) => {
                C::discard(c, stream);
                B::discard(b, stream);
                A::discard(a, stream);
                assert(stream@.marks =~= from.marks);
                assert(undone(at, 3, 7, from, stream@));
                return Err(error);
            },
        };
        assert(old(self).3.gets(self.3, at[3], at[4], Ok(d)));
        let r = self.4.get(stream);
        let ghost at = at.push(stream@);
        let e = match r {
            Ok(e) => e,
            Err(error) => {
                D::discard(d, stream);
                C::discard(c, stream);
                B::discard(b, stream);
                A::discard(a, stream);
                assert(stream@.marks =~= from.marks);
                assert(undone(at, 4, 7, from, stream@));
                return Err(error);
            },
        };
        assert(old(self).4.gets(self.4, at[4], at[5], Ok(e)));
        let r = self.5.get(stream);
        let ghost at = at.push(stream@);
        let f = match r {
            Ok(f) => f,
            Err(error) => {
                E::discard(e, stream);
                D::discard(d, stream);
                C::discard(c, stream);
                B::discard(b, stream);
                A::discard(a, stream);
                assert(stream@.marks =~= from.marks);
                assert(undone(at, 5, 7, from, stream@));
                return Err(error);
            },
        };
        assert(old(self).5.gets(self.5, at[5], at[6], Ok(f)));
        let r = self.6.get(stream);
        let ghost at = at.push(stream@);
        let g = match r {
            Ok(g) => g,
            Err(error) => {
                F::discard(f, stream);
                E::discard(e, stream);
                D::discard(d, stream);
                C::discard(c, stream);
                B::discard(b, stream);
                A::discard(a, stream);
                assert(stream@.marks =~= from.marks);
                assert(undone(at, 6, 7, from, stream@));
                return Err(error);
            },
        };
        assert(old(self).6.gets(self.6, at[6], at[7], Ok(g)));
        let output = (a, b, c, d, e, f, g);
        proof {
            assert(route(at, 6, 7, from, stream@, None));
            assert(stream@.marks =~= from.marks.add(Self::held(output)));
        }
        Ok(output)
    }

    fn discard(output: Self::Output, stream: &mut Self::Input) {
        let ghost marks = stream@.marks;
        let (a, b, c, d, e, f, g) = output;
        G::discard(g, stream);
        F::discard(f, stream);
        E::discard(e, stream);
        D::discard(d, stream);
        C::discard(c, stream);
        B::discard(b, stream);
        A::discard(a, stream);
        assert(stream@.marks =~= marks.sub(Self::held(output)));
    }
}

/// Applies eight parsers in order.
impl<A, B, C, D, E, F, G, H> Parser for (A, B, C, D, E, F, G, H) where
    A: Parser,
    B: Parser<Input = A::Input>,
    C: Parser<Input = A::Input>,
    D: Parser<Input = A::Input>,
    E: Parser<Input = A::Input>,
    F: Parser<Input = A::Input>,
    G: Parser<Input = A::Input>,
    H: Parser<Input = A::Input>,
 {
    type Input = A::Input;

    type Output = (
        A::Output,
        B::Output,
        C::Output,
        D::Output,
        E::Output,
        F::Output,
        G::Output,
        H::Output,
    );

    open spec fn ready(&self, from: StreamState) -> bool {
        let rest = (self.1, self.2, self.3, self.4, self.5, self.6, self.7);
        &&& self.0.ready(from)
        &&& forall|after: A, at: StreamState| #[trigger]
            self.0.parses(after, from, at, None) ==> rest.ready(at)
        &&& forall|after: A, at: StreamState, output: A::Output| #[trigger]
            self.0.gets(after, from, at, Ok(output)) ==> rest.ready(at)
    }

    open spec fn parses(
        &self,
        after: Self,
        from: StreamState,
        to: StreamState,
        error: Option<ParserError>,
    ) -> bool {
        exists|at: Seq<StreamState>, last: int|
            {
                &&& #[trigger] route(at, last, 8, from, to, error)
                &&& step(self.0, after.0, at[0], at[1], 0, last, error)
                &&& step(self.1, after.1, at[1], at[2], 1, last, error)
                &&& step(self.2, after.2, at[2], at[3], 2, last, error)
                &&& step(self.3, after.3, at[3], at[4], 3, last, error)
                &&& step(self.4, after.4, at[4], at[5], 4, last, error)
                &&& step(self.5, after.5, at[5], at[6], 5, last, error)
                &&& step(self.6, after.6, at[6], at[7], 6, last, error)
                &&& step(self.7, after.7, at[7], at[8], 7, last, error)
            }
    }

    open spec fn gets(
        &self,
        after: Self,
        from: StreamState,
        to: StreamState,
        r: Result<Self::Output, ParserError>,
    ) -> bool {
        match r {
            Ok(output) => exists|at: Seq<StreamState>|
                {
                    &&& #[trigger] route(at, 7, 8, from, to, None)
                    &&& self.0.gets(after.0, at[0], at[1], Ok(output.0))
                    &&& self.1.gets(after.1, at[1], at[2], Ok(output.1))
                    &&& self.2.gets(after.2, at[2], at[3], Ok(output.2))
                    &&& self.3.gets(after.3, at[3], at[4], Ok(output.3))
                    &&& self.4.gets(after.4, at[4], at[5], Ok(output.4))
                    &&& self.5.gets(after.5, at[5], at[6], Ok(output.5))
                    &&& self.6.gets(after.6, at[6], at[7], Ok(output.6))
                    &&& self.7.gets(after.7, at[7], at[8], Ok(output.7))
                },
            Err(error) => exists|at: Seq<StreamState>, last: int|
                {
                    &&& #[trigger] undone(at, last, 8, from, to)
                    &&& tries(self.0, after.0, at[0], at[1], 0, last, error)
                    &&& tries(self.1, after.1, at[1], at[2], 1, last, error)
                    &&& tries(self.2, after.2, at[2], at[3], 2, last, error)
                    &&& tries(self.3, after.3, at[3], at[4], 3, last, error)
                    &&& tries(self.4, after.4, at[4], at[5], 4, last, error)
                    &&& tries(self.5, after.5, at[5], at[6], 5, last, error)
                    &&& tries(self.6, after.6, at[6], at[7], 6, last, error)
                    &&& tries(self.7, after.7, at[7], at[8], 7, last, error)
                },
        }
    }

    open spec fn held(output: Self::Output) -> Multiset<nat> {
        A::held(output.0)
            .add(B::held(output.1))
            .add(C::held(output.2))
            .add(D::held(output.3))
            .add(E::held(output.4))
            .add(F::held(output.5))
            .add(G::held(output.6))
            .add(H::held(output.7))
    }

    fn parse(&mut self, stream: &mut Self::Input) -> (r: Result<(), ParserError>) {
        let ghost from = stream@;
        let ghost at = seq![from];
        let r = self.0.parse(stream);
        let ghost at = at.push(stream@);
        if let Err(error) = r {
            assert(route(at, 0, 8, from, stream@, Some(error)));
            return Err(error);
        }
        let r = self.1.parse(stream);
        let ghost at = at.push(stream@);
        if let Err(error) = r {
            assert(route(at, 1, 8, from, stream@, Some(error)));
            return Err(error);
        }
        let r = self.2.parse(stream);
        let ghost at = at.push(stream@);
        if let Err(error) = r {
            assert(route(at, 2, 8, from, stream@, Some(error)));
            return Err(error);
        }
        let r = self.3.parse(stream);
        let ghost at = at.push(stream@);
        if let Err(error) = r {
            assert(route(at, 3, 8, from, stream@, Some(error)));
            return Err(error);
        }
        let r = self.4.parse(stream);
        let ghost at = at.push(stream@);
        if let Err(error) = r {
            assert(route(at, 4, 8, from, stream@, Some(error)));
            return Err(error);
        }
        let r = self.5.parse(stream);
        let ghost at = at.push(stream@);
        if let Err(error) = r {
            assert(route(at, 5, 8, from, stream@, Some(error)));
            return Err(error);
        }
        let r = self.6.parse(stream);
        let ghost at = at.push(stream@);
        if let Err(error) = r {
            assert(route(at, 6, 8, from, stream@, Some(error)));
            return Err(error);
        }
        let r = self.7.parse(stream);
        let ghost at = at.push(stream@);
        assert(route(at, 7, 8, from, stream@, parser::failure(r)));
        r
    }

    fn get(&mut self, stream: &mut Self::Input) -> (r: Result<Self::Output, ParserError>) {
        let ghost from = stream@;
        let ghost at = seq![from];
        let r = self.0.get(stream);
        let ghost at = at.push(stream@);
        let a = match r {
            Ok(a) => a,
            Err(error) => {
                assert(stream@.marks =~= from.marks);
                assert(undone(at, 0, 8, from, stream@));
                return Err(error);
            },
        };
        assert(old(self).0.gets(self.0, at[0], at[1], Ok(a)));
        let r = self.1.get(stream);
        let ghost at = at.push(stream@);
        let b = match r {
            Ok(b) => b,
            Err(error) => {
                A::discard(a, stream);
                assert(stream@.marks =~= from.marks);
                assert(undone(at, 1, 8, from, stream@));
                return Err(error);
            },
        };
        assert(old(self).1.gets(self.1, at[1], at[2], Ok(b)));
        let r = self.2.get(stream);
        let ghost at = at.push(stream@);
        let c = match r {
            Ok(c) => c,
            Err(error) => {
                B::discard(b, stream);
                A::discard(a, stream);
                assert(stream@.marks =~= from.marks);
                assert(undone(at, 2, 8, from, stream@));
                return Err(error);
            },
        };
        assert(old(self).2.gets(self.2, at[2], at[3], Ok(c)));
        let r = self.3.get(stream);
        let ghost at = at.push(stream@);
        let d = match r {
            Ok(d) => d,
            Err(error) => {
                C::discard(c, stream);
                B::discard(b, stream);
                A::discard(a, stream);
                assert(stream@.marks =~= from.marks);
                assert(undone(at, 3, 8, from, stream@));
                return Err(error);
            },
        };
        assert(old(self).3.gets(self.3, at[3], at[4], Ok(d)));
        let r = self.4.get(stream);
        let ghost at = at.push(stream@);
        let e = match r {
            Ok(e) => e,
            Err(error) => {
                D::discard(d, stream);
                C::discard(c, stream);
                B::discard(b, stream);
                A::discard(a, stream);
                assert(stream@.marks =~= from.marks);
                assert(undone(at, 4, 8, from, stream@));
                return Err(error);
            },
        };
        assert(old(self).4.gets(self.4, at[4], at[5], Ok(e)));
        let r = self.5.get(stream);
        let ghost at = at.push(stream@);
        let f = match r {
            Ok(f) => f,
            Err(error) => {
                E::discard(e, stream);
                D::discard(d, stream);
                C::discard(c, stream);
                B::discard(b, stream);
                A::discard(a, stream);
                assert(stream@.marks =~= from.marks);
                assert(undone(at, 5, 8, from, stream@));
                return Err(error);
            },
        };
        assert(old(self).5.gets(self.5, at[5], at[6], Ok(f)));
        let r = self.6.get(stream);
        let ghost at = at.push(stream@);
        let g = match r {
            Ok(g) => g,
            Err(error) => {
                F::discard(f, stream);
                E::discard(e, stream);
                D::discard(d, stream);
                C::discard(c, stream);
                B::discard(b, stream);
                A::discard(a, stream);
                assert(stream@.marks =~= from.marks);
                assert(undone(at, 6, 8, from, stream@));
                return Err(error);
            },
        };
        assert(old(self).6.gets(self.6, at[6], at[7], Ok(g)));
        let r = self.7.get(stream);
        let ghost at = at.push(stream@);
        let h = match r {
            Ok(h) => h,
            Err(error) => {
                G::discard(g, stream);
                F::discard(f, stream);
                E::discard(e, stream);
                D::discard(d, stream);
                C::discard(c, stream);
                B::discard(b, stream);
                A::discard(a, stream);
                assert(stream@.marks =~= from.marks);
                assert(undone(at, 7, 8, from, stream@));
                return Err(error);
            },
        };
        assert(old(self).7.gets(self.7, at[7], at[8], Ok(h)));
        let output = (a, b, c, d, e, f, g, h);
        proof {
            assert(route(at, 7, 8, from, stream@, None));
            assert(stream@.marks =~= from.marks.add(Self::held(output)));
        }
        Ok(output)
    }

    fn discard(output: Self::Output, stream: &mut Self::Input) {
        let ghost marks = stream@.marks;
        let (a, b, c, d, e, f, g, h) = output;
        H::discard(h, stream);
        G::discard(g, stream);
        F::discard(f, stream);
        E::discard(e, stream);
        D::discard(d, stream);
        C::discard(c, stream);
        B::discard(b, stream);
        A::discard(a, stream);
        assert(stream@.marks =~= marks.sub(Self::held(output)));
    }
}

/// Applies nine parsers in order.
impl<A, B, C, D, E, F, G, H, I> Parser for (A, B, C, D, E, F, G, H, I) where
    A: Parser,
    B: Parser<Input = A::Input>,
    C: Parser<Input = A::Input>,
    D: Parser<Input = A::Input>,
    E: Parser<Input = A::Input>,
    F: Parser<Input = A::Input>,
    G: Parser<Input = A::Input>,
    H: Parser<Input = A::Input>,
    I: Parser<Input = A::Input>,
 {
    type Input = A::Input;

    type Output = (
        A::Output,
        B::Output,
        C::Output,
        D::Output,
        E::Output,
        F::Output,
        G::Output,
        H::Output,
        I::Output,
    );

    open spec fn ready(&self, from: StreamState) -> bool {
        let rest = (self.1, self.2, self.3, self.4, self.5, self.6, self.7, self.8);
        &&& self.0.ready(from)
        &&& forall|after: A, at: StreamState| #[trigger]
            self.0.parses(after, from, at, None) ==> rest.ready(at)
        &&& forall|after: A, at: StreamState, output: A::Output| #[trigger]
            self.0.gets(after, from, at, Ok(output)) ==> rest.ready(at)
    }

    open spec fn parses(
        &self,
        after: Self,
        from: StreamState,
        to: StreamState,
        error: Option<ParserError>,
    ) -> bool {
        exists|at: Seq<StreamState>, last: int|
            {
                &&& #[trigger] route(at, last, 9, from, to, error)
                &&& step(self.0, after.0, at[0], at[1], 0, last, error)
                &&& step(self.1, after.1, at[1], at[2], 1, last, error)
                &&& step(self.2, after.2, at[2], at[3], 2, last, error)
                &&& step(self.3, after.3, at[3], at[4], 3, last, error)
                &&& step(self.4, after.4, at[4], at[5], 4, last, error)
                &&& step(self.5, after.5, at[5], at[6], 5, last, error)
                &&& step(self.6, after.6, at[6], at[7], 6, last, error)
                &&& step(self.7, after.7, at[7], at[8], 7, last, error)
                &&& step(self.8, after.8, at[8], at[9], 8, last, error)
            }
    }

    open spec fn gets(
        &self,
        after: Self,
        from: StreamState,
        to: StreamState,
        r: Result<Self::Output, ParserError>,
    ) -> bool {
        match r {
            Ok(output) => exists|at: Seq<StreamState>|
                {
                    &&& #[trigger] route(at, 8, 9, from, to, None)
                    &&& self.0.gets(after.0, at[0], at[1], Ok(output.0))
                    &&& self.1.gets(after.1, at[1], at[2], Ok(output.1))
                    &&& self.2.gets(after.2, at[2], at[3], Ok(output.2))
                    &&& self.3.gets(after.3, at[3], at[4], Ok(output.3))
                    &&& self.4.gets(after.4, at[4], at[5], Ok(output.4))
                    &&& self.5.gets(after.5, at[5], at[6], Ok(output.5))
                    &&& self.6.gets(after.6, at[6], at[7], Ok(output.6))
                    &&& self.7.gets(after.7, at[7], at[8], Ok(output.7))
                    &&& self.8.gets(after.8, at[8], at[9], Ok(output.8))
                },
            Err(error) => exists|at: Seq<StreamState>, last: int|
                {
                    &&& #[trigger] undone(at, last, 9, from, to)
                    &&& tries(self.0, after.0, at[0], at[1], 0, last, error)
                    &&& tries(self.1, after.1, at[1], at[2], 1, last, error)
                    &&& tries(self.2, after.2, at[2], at[3], 2, last, error)
                    &&& tries(self.3, after.3, at[3], at[4], 3, last, error)
                    &&& tries(self.4, after.4, at[4], at[5], 4, last, error)
                    &&& tries(self.5, after.5, at[5], at[6], 5, last, error)
                    &&& tries(self.6, after.6, at[6], at[7], 6, last, error)
                    &&& tries(self.7, after.7, at[7], at[8], 7, last, error)
                    &&& tries(self.8, after.8, at[8], at[9], 8, last, error)
                },
        }
    }

    open spec fn held(output: Self::Output) -> Multiset<nat> {
        A::held(output.0)
            .add(B::held(output.1))
            .add(C::held(output.2))
            .add(D::held(output.3))
            .add(E::held(output.4))
            .add(F::held(output.5))
            .add(G::held(output.6))
            .add(H::held(output.7))
            .add(I::held(output.8))
    }

    fn parse(&mut self, stream: &mut Self::Input) -> (r: Result<(), ParserError>) {
        let ghost from = stream@;
        let ghost at = seq![from];
        let r = self.0.parse(stream);
        let ghost at = at.push(stream@);
        if let Err(error) = r {
            assert(route(at, 0, 9, from, stream@, Some(error)));
            return Err(error);
        }
        let r = self.1.parse(stream);
        let ghost at = at.push(stream@);
        if let Err(error) = r {
            assert(route(at, 1, 9, from, stream@, Some(error)));
            return Err(error);
        }
        let r = self.2.parse(stream);
        let ghost at = at.push(stream@);
        if let Err(error) = r {
            assert(route(at, 2, 9, from, stream@, Some(error)));
            return Err(error);
        }
        let r = self.3.parse(stream);
        let ghost at = at.push(stream@);
        if let Err(error) = r {
            assert(route(at, 3, 9, from, stream@, Some(error)));
            return Err(error);
        }
        let r = self.4.parse(stream);
        let ghost at = at.push(stream@);
        if let Err(error) = r {
            assert(route(at, 4, 9, from, stream@, Some(error)));
            return Err(error);
        }
        let r = self.5.parse(stream);
        let ghost at = at.push(stream@);
        if let Err(error) = r {
            assert(route(at, 5, 9, from, stream@, Some(error)));
            return Err(error);
        }
        let r = self.6.parse(stream);
        let ghost at = at.push(stream@);
        if let Err(error) = r {
            assert(route(at, 6, 9, from, stream@, Some(error)));
            return Err(error);
        }
        let r = self.7.parse(stream);
        let ghost at = at.push(stream@);
        if let Err(error) = r {
            assert(route(at, 7, 9, from, stream@, Some(error)));
            return Err(error);
        }
        let r = self.8.parse(stream);
        let ghost at = at.push(stream@);
        assert(route(at, 8, 9, from, stream@, parser::failure(r)));
        r
    }

    fn get(&mut self, stream: &mut Self::Input) -> (r: Result<Self::Output, ParserError>) {
        let ghost from = stream@;
        let ghost at = seq![from];
        let r = self.0.get(stream);
        let ghost at = at.push(stream@);
        let a = match r {
            Ok(a) => a,
            Err(error) => {
                assert(stream@.marks =~= from.marks);
                assert(undone(at, 0, 9, from, stream@));
                return Err(error);
            },
        };
        assert(old(self).0.gets(self.0, at[0], at[1], Ok(a)));
        let r = self.1.get(stream);
        let ghost at = at.push(stream@);
        let b = match r {
            Ok(b) => b,
            Err(error) => {
                A::discard(a, stream);
                assert(stream@.marks =~= from.marks);
                assert(undone(at, 1, 9, from, stream@));
                return Err(error);
            },
        };
        assert(old(self).1.gets(self.1, at[1], at[2], Ok(b)));
        let r = self.2.get(stream);
        let ghost at = at.push(stream@);
        let c = match r {
            Ok(c) => c,
            Err(error) => {
                B::discard(b, stream);
                A::discard(a, stream);
                assert(stream@.marks =~= from.marks);
                assert(undone(at, 2, 9, from, stream@));
                return Err(error);
            },
        };
        assert(old(self).2.gets(self.2, at[2], at[3], Ok(c)));
        let r = self.3.get(stream);
        let ghost at = at.push(stream@);
        let d = match r {
            Ok(d) => d,
            Err(error) => {
                C::discard(c, stream);
                B::discard(b, stream);
                A::discard(a, stream);
                assert(stream@.marks =~= from.marks);
                assert(undone(at, 3, 9, from, stream@));
                return Err(error);
            },
        };
        assert(old(self).3.gets(self.3, at[3], at[4], Ok(d)));
        let r = self.4.get(stream);
        let ghost at = at.push(stream@);
        let e = match r {
            Ok(e) => e,
            Err(error) => {
                D::discard(d, stream);
                C::discard(c, stream);
                B::discard(b, stream);
                A::discard(a, stream);
                assert(stream@.marks =~= from.marks);
                assert(undone(at, 4, 9, from, stream@));
                return Err(error);
            },
        };
        assert(old(self).4.gets(self.4, at[4], at[5], Ok(e)));
        let r = self.5.get(stream);
        let ghost at = at.push(stream@);
        let f = match r {
            Ok(f) => f,
            Err(error) => {
                E::discard(e, stream);
                D::discard(d, stream);
                C::discard(c, stream);
                B::discard(b, stream);
                A::discard(a, stream);
                assert(stream@.marks =~= from.marks);
                assert(undone(at, 5, 9, from, stream@));
                return Err(error);
            },
        };
        assert(old(self).5.gets(self.5, at[5], at[6], Ok(f)));
        let r = self.6.get(stream);
        let ghost at = at.push(stream@);
        let g = match r {
            Ok(g) => g,
            Err(error) => {
                F::discard(f, stream);
                E::discard(e, stream);
                D::discard(d, stream);
                C::discard(c, stream);
                B::discard(b, stream);
                A::discard(a, stream);
                assert(stream@.marks =~= from.marks);
                assert(undone(at, 6, 9, from, stream@));
                return Err(error);
            },
        };
        assert(old(self).6.gets(self.6, at[6], at[7], Ok(g)));
        let r = self.7.get(stream);
        let ghost at = at.push(stream@);
        let h = match r {
            Ok(h) => h,
            Err(error) => {
                G::discard(g, stream);
                F::discard(f, stream);
                E::discard(e, stream);
                D::discard(d, stream);
                C::discard(c, stream);
                B::discard(b, stream);
                A::discard(a, stream);
                assert(stream@.marks =~= from.marks);
                assert(undone(at, 7, 9, from, stream@));
                return Err(error);
            },
        };
        assert(old(self).7.gets(self.7, at[7], at[8], Ok(h)));
        let r = self.8.get(stream);
        let ghost at = at.push(stream@);
        let i = match r {
            Ok(i) => i,
            Err(error) => {
                H::discard(h, stream);
                G::discard(g, stream);
                F::discard(f, stream);
                E::discard(e, stream);
                D::discard(d, stream);
                C::discard(c, stream);
                B::discard(b, stream);
                A::discard(a, stream);
                assert(stream@.marks =~= from.marks);
                assert(undone(at, 8, 9, from, stream@));
                return Err(error);
            },
        };
        assert(old(self).8.gets(self.8, at[8], at[9], Ok(i)));
        let output = (a, b, c, d, e, f, g, h, i);
        proof {
            assert(route(at, 8, 9, from, stream@, None));
            assert(stream@.marks =~= from.marks.add(Self::held(output)));
        }
        Ok(output)
    }

    fn discard(output: Self::Output, stream: &mut Self::Input) {
        let ghost marks = stream@.marks;
        let (a, b, c, d, e, f, g, h, i) = output;
        I::discard(i, stream);
        H::discard(h, stream);
        G::discard(g, stream);
        F::discard(f, stream);
        E::discard(e, stream);
        D::discard(d, stream);
        C::discard(c, stream);
        B::discard(b, stream);
        A::discard(a, stream);
        assert(stream@.marks =~= marks.sub(Self::held(output)));
    }
}

/// Applies ten parsers in order.
impl<A, B, C, D, E, F, G, H, I, J> Parser for (A, B, C, D, E, F, G, H, I, J) where
    A: Parser,
    B: Parser<Input = A::Input>,
    C: Parser<Input = A::Input>,
    D: Parser<Input = A::Input>,
    E: Parser<Input = A::Input>,
    F: Parser<Input = A::Input>,
    G: Parser<Input = A::Input>,
    H: Parser<Input = A::Input>,
    I: Parser<Input = A::Input>,
    J: Parser<Input = A::Input>,
 {
    type Input = A::Input;

    type Output = (
        A::Output,
        B::Output,
        C::Output,
        D::Output,
        E::Output,
        F::Output,
        G::Output,
        H::Output,
        I::Output,
        J::Output,
    );

    open spec fn ready(&self, from: StreamState) -> bool {
        let rest = (self.1, self.2, self.3, self.4, self.5, self.6, self.7, self.8, self.9);
        &&& self.0.ready(from)
        &&& forall|after: A, at: StreamState| #[trigger]
            self.0.parses(after, from, at, None) ==> rest.ready(at)
        &&& forall|after: A, at: StreamState, output: A::Output| #[trigger]
            self.0.gets(after, from, at, Ok(output)) ==> rest.ready(at)
    }

    open spec fn parses(
        &self,
        after: Self,
        from: StreamState,
        to: StreamState,
        error: Option<ParserError>,
    ) -> bool {
        exists|at: Seq<StreamState>, last: int|
            {
                &&& #[trigger] route(at, last, 10, from, to, error)
                &&& step(self.0, after.0, at[0], at[1], 0, last, error)
                &&& step(self.1, after.1, at[1], at[2], 1, last, error)
                &&& step(self.2, after.2, at[2], at[3], 2, last, error)
                &&& step(self.3, after.3, at[3], at[4], 3, last, error)
                &&& step(self.4, after.4, at[4], at[5], 4, last, error)
                &&& step(self.5, after.5, at[5], at[6], 5, last, error)
                &&& step(self.6, after.6, at[6], at[7], 6, last, error)
                &&& step(self.7, after.7, at[7], at[8], 7, last, error)
                &&& step(self.8, after.8, at[8], at[9], 8, last, error)
                &&& step(self.9, after.9, at[9], at[10], 9, last, error)
            }
    }

    open spec fn gets(
        &self,
        after: Self,
        from: StreamState,
        to: StreamState,
        r: Result<Self::Output, ParserError>,
    ) -> bool {
        match r {
            Ok(output) => exists|at: Seq<StreamState>|
                {
                    &&& #[trigger] route(at, 9, 10, from, to, None)
                    &&& self.0.gets(after.0, at[0], at[1], Ok(output.0))
                    &&& self.1.gets(after.1, at[1], at[2], Ok(output.1))
                    &&& self.2.gets(after.2, at[2], at[3], Ok(output.2))
                    &&& self.3.gets(after.3, at[3], at[4], Ok(output.3))
                    &&& self.4.gets(after.4, at[4], at[5], Ok(output.4))
                    &&& self.5.gets(after.5, at[5], at[6], Ok(output.5))
                    &&& self.6.gets(after.6, at[6], at[7], Ok(output.6))
                    &&& self.7.gets(after.7, at[7], at[8], Ok(output.7))
                    &&& self.8.gets(after.8, at[8], at[9], Ok(output.8))
                    &&& self.9.gets(after.9, at[9], at[10], Ok(output.9))
                },
            Err(error) => exists|at: Seq<StreamState>, last: int|
                {
                    &&& #[trigger] undone(at, last, 10, from, to)
                    &&& tries(self.0, after.0, at[0], at[1], 0, last, error)
                    &&& tries(self.1, after.1, at[1], at[2], 1, last, error)
                    &&& tries(self.2, after.2, at[2], at[3], 2, last, error)
                    &&& tries(self.3, after.3, at[3], at[4], 3, last, error)
                    &&& tries(self.4, after.4, at[4], at[5], 4, last, error)
                    &&& tries(self.5, after.5, at[5], at[6], 5, last, error)
                    &&& tries(self.6, after.6, at[6], at[7], 6, last, error)
                    &&& tries(self.7, after.7, at[7], at[8], 7, last, error)
                    &&& tries(self.8, after.8, at[8], at[9], 8, last, error)
                    &&& tries(self.9, after.9, at[9], at[10], 9, last, error)
                },
        }
    }

    open spec fn held(output: Self::Output) -> Multiset<nat> {
        A::held(output.0)
            .add(B::held(output.1))
            .add(C::held(output.2))
            .add(D::held(output.3))
            .add(E::held(output.4))
            .add(F::held(output.5))
            .add(G::held(output.6))
            .add(H::held(output.7))
            .add(I::held(output.8))
            .add(J::held(output.9))
    }

    fn parse(&mut self, stream: &mut Self::Input) -> (r: Result<(), ParserError>) {
        let ghost from = stream@;
        let ghost at = seq![from];
        let r = self.0.parse(stream);
        let ghost at = at.push(stream@);
        if let Err(error) = r {
            assert(route(at, 0, 10, from, stream@, Some(error)));
            return Err(error);
        }
        let r = self.1.parse(stream);
        let ghost at = at.push(stream@);
        if let Err(error) = r {
            assert(route(at, 1, 10, from, stream@, Some(error)));
            return Err(error);
        }
        let r = self.2.parse(stream);
        let ghost at = at.push(stream@);
        if let Err(error) = r {
            assert(route(at, 2, 10, from, stream@, Some(error)));
            return Err(error);
        }
        let r = self.3.parse(stream);
        let ghost at = at.push(stream@);
        if let Err(error) = r {
            assert(route(at, 3, 10, from, stream@, Some(error)));
            return Err(error);
        }
        let r = self.4.parse(stream);
        let ghost at = at.push(stream@);
        if let Err(error) = r {
            assert(route(at, 4, 10, from, stream@, Some(error)));
            return Err(error);
        }
        let r = self.5.parse(stream);
        let ghost at = at.push(stream@);
        if let Err(error) = r {
            assert(route(at, 5, 10, from, stream@, Some(error)));
            return Err(error);
        }
        let r = self.6.parse(stream);
        let ghost at = at.push(stream@);
        if let Err(error) = r {
            assert(route(at, 6, 10, from, stream@, Some(error)));
            return Err(error);
        }
        let r = self.7.parse(stream);
        let ghost at = at.push(stream@);
        if let Err(error) = r {
            assert(route(at, 7, 10, from, stream@, Some(error)));
            return Err(error);
        }
        let r = self.8.parse(stream);
        let ghost at = at.push(stream@);
        if let Err(error) = r {
            assert(route(at, 8, 10, from, stream@, Some(error)));
            return Err(error);
        }
        let r = self.9.parse(stream);
        let ghost at = at.push(stream@);
        assert(route(at, 9, 10, from, stream@, parser::failure(r)));
        r
    }

    fn get(&mut self, stream: &mut Self::Input) -> (r: Result<Self::Output, ParserError>) {
        let ghost from = stream@;
        let ghost at = seq![from];
        let r = self.0.get(stream);
        let ghost at = at.push(stream@);
        let a = match r {
            Ok(a) => a,
            Err(error) => {
                assert(stream@.marks =~= from.marks);
                assert(undone(at, 0, 10, from, stream@));
                return Err(error);
            },
        };
        assert(old(self).0.gets(self.0, at[0], at[1], Ok(a)));
        let r = self.1.get(stream);
        let ghost at = at.push(stream@);
        let b = match r {
            Ok(b) => b,
            Err(error) => {
                A::discard(a, stream);
                assert(stream@.marks =~= from.marks);
                assert(undone(at, 1, 10, from, stream@));
                return Err(error);
            },
        };
        assert(old(self).1.gets(self.1, at[1], at[2], Ok(b)));
        let r = self.2.get(stream);
        let ghost at = at.push(stream@);
        let c = match r {
            Ok(c) => c,
            Err(error) => {
                B::discard(b, stream);
                A::discard(a, stream);
                assert(stream@.marks =~= from.marks);
                assert(undone(at, 2, 10, from, stream@));
                return Err(error);
            },
        };
        assert(old(self).2.gets(self.2, at[2], at[3], Ok(c)));
        let r = self.3.get(stream);
        let ghost at = at.push(stream@);
        let d = match r {
            Ok(d) => d,
            Err(error) => {
                C::discard(c, stream);
                B::discard(b, stream);
                A::discard(a, stream);
                assert(stream@.marks =~= from.marks);
                assert(undone(at, 3, 10, from, stream@));
                return Err(error);
            },
        };
        assert(old(self).3.gets(self.3, at[3], at[4], Ok(d)));
        let r = self.4.get(stream);
        let ghost at = at.push(stream@);
        let e = match r {
            Ok(e) => e,
            Err(error) => {
                D::discard(d, stream);
                C::discard(c, stream);
                B::discard(b, stream);
                A::discard(a, stream);
                assert(stream@.marks =~= from.marks);
                assert(undone(at, 4, 10, from, stream@));
                return Err(error);
            },
        };
        assert(old(self).4.gets(self.4, at[4], at[5], Ok(e)));
        let r = self.5.get(stream);
        let ghost at = at.push(stream@);
        let f = match r {
            Ok(f) => f,
            Err(error) => {
                E::discard(e, stream);
                D::discard(d, stream);
                C::discard(c, stream);
                B::discard(b, stream);
                A::discard(a, stream);
                assert(stream@.marks =~= from.marks);
                assert(undone(at, 5, 10, from, stream@));
                return Err(error);
            },
        };
        assert(old(self).5.gets(self.5, at[5], at[6], Ok(f)));
        let r = self.6.get(stream);
        let ghost at = at.push(stream@);
        let g = match r {
            Ok(g) => g,
            Err(error) => {
                F::discard(f, stream);
                E::discard(e, stream);
                D::discard(d, stream);
                C::discard(c, stream);
                B::discard(b, stream);
                A::discard(a, stream);
                assert(stream@.marks =~= from.marks);
                assert(undone(at, 6, 10, from, stream@));
                return Err(error);
            },
        };
        assert(old(self).6.gets(self.6, at[6], at[7], Ok(g)));
        let r = self.7.get(stream);
        let ghost at = at.push(stream@);
        let h = match r {
            Ok(h) => h,
            Err(error) => {
                G::discard(g, stream);
                F::discard(f, stream);
                E::discard(e, stream);
                D::discard(d, stream);
                C::discard(c, stream);
                B::discard(b, stream);
                A::discard(a, stream);
                assert(stream@.marks =~= from.marks);
                assert(undone(at, 7, 10, from, stream@));
                return Err(error);
            },
        };
        assert(old(self).7.gets(self.7, at[7], at[8], Ok(h)));
        let r = self.8.get(stream);
        let ghost at = at.push(stream@);
        let i = match r {
            Ok(i) => i,
            Err(error) => {
                H::discard(h, stream);
                G::discard(g, stream);
                F::discard(f, stream);
                E::discard(e, stream);
                D::discard(d, stream);
                C::discard(c, stream);
                B::discard(b, stream);
                A::discard(a, stream);
                assert(stream@.marks =~= from.marks);
                assert(undone(at, 8, 10, from, stream@));
                return Err(error);
            },
        };
        assert(old(self).8.gets(self.8, at[8], at[9], Ok(i)));
        let r = self.9.get(stream);
        let ghost at = at.push(stream@);
        let j = match r {
            Ok(j) => j,
            Err(error) => {
                I::discard(i, stream);
                H::discard(h, stream);
                G::discard(g, stream);
                F::discard(f, stream);
                E::discard(e, stream);
                D::discard(d, stream);
                C::discard(c, stream);
                B::discard(b, stream);
                A::discard(a, stream);
                assert(stream@.marks =~= from.marks);
                assert(undone(at, 9, 10, from, stream@));
                return Err(error);
            },
        };
        assert(old(self).9.gets(self.9, at[9], at[10], Ok(j)));
        let output = (a, b, c, d, e, f, g, h, i, j);
        proof {
            assert(route(at, 9, 10, from, stream@, None));
            assert(stream@.marks =~= from.marks.add(Self::held(output)));
        }
        Ok(output)
    }

    fn discard(output: Self::Output, stream: &mut Self::Input) {
        let ghost marks = stream@.marks;
        let (a, b, c, d, e, f, g, h, i, j) = output;
        J::discard(j, stream);
        I::discard(i, stream);
        H::discard(h, stream);
        G::discard(g, stream);
        F::discard(f, stream);
        E::discard(e, stream);
        D::discard(d, stream);
        C::discard(c, stream);
        B::discard(b, stream);
        A::discard(a, stream);
        assert(stream@.marks =~= marks.sub(Self::held(output)));
    }
}

/// Applies eleven parsers in order.
impl<A, B, C, D, E, F, G, H, I, J, K> Parser for (A, B, C, D, E, F, G, H, I, J, K) where
    A: Parser,
    B: Parser<Input = A::Input>,
    C: Parser<Input = A::Input>,
    D: Parser<Input = A::Input>,
    E: Parser<Input = A::Input>,
    F: Parser<Input = A::Input>,
    G: Parser<Input = A::Input>,
    H: Parser<Input = A::Input>,
    I: Parser<Input = A::Input>,
    J: Parser<Input = A::Input>,
    K: Parser<Input = A::Input>,
 {
    type Input = A::Input;

    type Output = (
        A::Output,
        B::Output,
        C::Output,
        D::Output,
        E::Output,
        F::Output,
        G::Output,
        H::Output,
        I::Output,
        J::Output,
        K::Output,
    );

    open spec fn ready(&self, from: StreamState) -> bool {
        let rest = (
            self.1,
            self.2,
            self.3,
            self.4,
            self.5,
            self.6,
            self.7,
            self.8,
            self.9,
            self.10,
        );
        &&& self.0.ready(from)
        &&& forall|after: A, at: StreamState| #[trigger]
            self.0.parses(after, from, at, None) ==> rest.ready(at)
        &&& forall|after: A, at: StreamState, output: A::Output| #[trigger]
            self.0.gets(after, from, at, Ok(output)) ==> rest.ready(at)
    }

    open spec fn parses(
        &self,
        after: Self,
        from: StreamState,
        to: StreamState,
        error: Option<ParserError>,
    ) -> bool {
        exists|at: Seq<StreamState>, last: int|
            {
                &&& #[trigger] route(at, last, 11, from, to, error)
                &&& step(self.0, after.0, at[0], at[1], 0, last, error)
                &&& step(self.1, after.1, at[1], at[2], 1, last, error)
                &&& step(self.2, after.2, at[2], at[3], 2, last, error)
                &&& step(self.3, after.3, at[3], at[4], 3, last, error)
                &&& step(self.4, after.4, at[4], at[5], 4, last, error)
                &&& step(self.5, after.5, at[5], at[6], 5, last, error)
                &&& step(self.6, after.6, at[6], at[7], 6, last, error)
                &&& step(self.7, after.7, at[7], at[8], 7, last, error)
                &&& step(self.8, after.8, at[8], at[9], 8, last, error)
                &&& step(self.9, after.9, at[9], at[10], 9, last, error)
                &&& step(self.10, after.10, at[10], at[11], 10, last, error)
            }
    }

    open spec fn gets(
        &self,
        after: Self,
        from: StreamState,
        to: StreamState,
        r: Result<Self::Output, ParserError>,
    ) -> bool {
        match r {
            Ok(output) => exists|at: Seq<StreamState>|
                {
                    &&& #[trigger] route(at, 10, 11, from, to, None)
                    &&& self.0.gets(after.0, at[0], at[1], Ok(output.0))
                    &&& self.1.gets(after.1, at[1], at[2], Ok(output.1))
                    &&& self.2.gets(after.2, at[2], at[3], Ok(output.2))
                    &&& self.3.gets(after.3, at[3], at[4], Ok(output.3))
                    &&& self.4.gets(after.4, at[4], at[5], Ok(output.4))
                    &&& self.5.gets(after.5, at[5], at[6], Ok(output.5))
                    &&& self.6.gets(after.6, at[6], at[7], Ok(output.6))
                    &&& self.7.gets(after.7, at[7], at[8], Ok(output.7))
                    &&& self.8.gets(after.8, at[8], at[9], Ok(output.8))
                    &&& self.9.gets(after.9, at[9], at[10], Ok(output.9))
                    &&& self.10.gets(after.10, at[10], at[11], Ok(output.10))
                },
            Err(error) => exists|at: Seq<StreamState>, last: int|
                {
                    &&& #[trigger] undone(at, last, 11, from, to)
                    &&& tries(self.0, after.0, at[0], at[1], 0, last, error)
                    &&& tries(self.1, after.1, at[1], at[2], 1, last, error)
                    &&& tries(self.2, after.2, at[2], at[3], 2, last, error)
                    &&& tries(self.3, after.3, at[3], at[4], 3, last, error)
                    &&& tries(self.4, after.4, at[4], at[5], 4, last, error)
                    &&& tries(self.5, after.5, at[5], at[6], 5, last, error)
                    &&& tries(self.6, after.6, at[6], at[7], 6, last, error)
                    &&& tries(self.7, after.7, at[7], at[8], 7, last, error)
                    &&& tries(self.8, after.8, at[8], at[9], 8, last, error)
                    &&& tries(self.9, after.9, at[9], at[10], 9, last, error)
                    &&& tries(self.10, after.10, at[10], at[11], 10, last, error)
                },
        }
    }

    open spec fn held(output: Self::Output) -> Multiset<nat> {
        A::held(output.0)
            .add(B::held(output.1))
            .add(C::held(output.2))
            .add(D::held(output.3))
            .add(E::held(output.4))
            .add(F::held(output.5))
            .add(G::held(output.6))
            .add(H::held(output.7))
            .add(I::held(output.8))
            .add(J::held(output.9))
            .add(K::held(output.10))
    }

    fn parse(&mut self, stream: &mut Self::Input) -> (r: Result<(), ParserError>) {
        let ghost from = stream@;
        let ghost at = seq![from];
        let r = self.0.parse(stream);
        let ghost at = at.push(stream@);
        if let Err(error) = r {
            assert(route(at, 0, 11, from, stream@, Some(error)));
            return Err(error);
        }
        let r = self.1.parse(stream);
        let ghost at = at.push(stream@);
        if let Err(error) = r {
            assert(route(at, 1, 11, from, stream@, Some(error)));
            return Err(error);
        }
        let r = self.2.parse(stream);
        let ghost at = at.push(stream@);
        if let Err(error) = r {
            assert(route(at, 2, 11, from, stream@, Some(error)));
            return Err(error);
        }
        let r = self.3.parse(stream);
        let ghost at = at.push(stream@);
        if let Err(error) = r {
            assert(route(at, 3, 11, from, stream@, Some(error)));
            return Err(error);
        }
        let r = self.4.parse(stream);
        let ghost at = at.push(stream@);
        if let Err(error) = r {
            assert(route(at, 4, 11, from, stream@, Some(error)));
            return Err(error);
        }
        let r = self.5.parse(stream);
        let ghost at = at.push(stream@);
        if let Err(error) = r {
            assert(route(at, 5, 11, from, stream@, Some(error)));
            return Err(error);
        }
        let r = self.6.parse(stream);
        let ghost at = at.push(stream@);
        if let Err(error) = r {
            assert(route(at, 6, 11, from, stream@, Some(error)));
            return Err(error);
        }
        let r = self.7.parse(stream);
        let ghost at = at.push(stream@);
        if let Err(error) = r {
            assert(route(at, 7, 11, from, stream@, Some(error)));
            return Err(error);
        }
        let r = self.8.parse(stream);
        let ghost at = at.push(stream@);
        if let Err(error) = r {
            assert(route(at, 8, 11, from, stream@, Some(error)));
            return Err(error);
        }
        let r = self.9.parse(stream);
        let ghost at = at.push(stream@);
        if let Err(error) = r {
            assert(route(at, 9, 11, from, stream@, Some(error)));
            return Err(error);
        }
        let r = self.10.parse(stream);
        let ghost at = at.push(stream@);
        assert(route(at, 10, 11, from, stream@, parser::failure(r)));
        r
    }

    fn get(&mut self, stream: &mut Self::Input) -> (r: Result<Self::Output, ParserError>) {
        let ghost from = stream@;
        let ghost at = seq![from];
        let r = self.0.get(stream);
        let ghost at = at.push(stream@);
        let a = match r {
            Ok(a) => a,
            Err(error) => {
                assert(stream@.marks =~= from.marks);
                assert(undone(at, 0, 11, from, stream@));
                return Err(error);
            },
        };
        assert(old(self).0.gets(self.0, at[0], at[1], Ok(a)));
        let r = self.1.get(stream);
        let ghost at = at.push(stream@);
        let b = match r {
            Ok(b) => b,
            Err(error) => {
                A::discard(a, stream);
                assert(stream@.marks =~= from.marks);
                assert(undone(at, 1, 11, from, stream@));
                return Err(error);
            },
        };
        assert(old(self).1.gets(self.1, at[1], at[2], Ok(b)));
        let r = self.2.get(stream);
        let ghost at = at.push(stream@);
        let c = match r {
            Ok(c) => c,
            Err(error) => {
                B::discard(b, stream);
                A::discard(a, stream);
                assert(stream@.marks =~= from.marks);
                assert(undone(at, 2, 11, from, stream@));
                return Err(error);
            },
        };
        assert(old(self).2.gets(self.2, at[2], at[3], Ok(c)));
        let r = self.3.get(stream);
        let ghost at = at.push(stream@);
        let d = match r {
            Ok(d) => d,
            Err(error) => {
                C::discard(c, stream);
                B::discard(b, stream);
                A::discard(a, stream);
                assert(stream@.marks =~= from.marks);
                assert(undone(at, 3, 11, from, stream@));
                return Err(error);
            },
        };
        assert(old(self).3.gets(self.3, at[3], at[4], Ok(d)));
        let r = self.4.get(stream);
        let ghost at = at.push(stream@);
        let e = match r {
            Ok(e) => e,
            Err(error) => {
                D::discard(d, stream);
                C::discard(c, stream);
                B::discard(b, stream);
                A::discard(a, stream);
                assert(stream@.marks =~= from.marks);
                assert(undone(at, 4, 11, from, stream@));
                return Err(error);
            },
        };
        assert(old(self).4.gets(self.4, at[4], at[5], Ok(e)));
        let r = self.5.get(stream);
        let ghost at = at.push(stream@);
        let f = match r {
            Ok(f) => f,
            Err(error) => {
                E::discard(e, stream);
                D::discard(d, stream);
                C::discard(c, stream);
                B::discard(b, stream);
                A::discard(a, stream);
                assert(stream@.marks =~= from.marks);
                assert(undone(at, 5, 11, from, stream@));
                return Err(error);
            },
        };
        assert(old(self).5.gets(self.5, at[5], at[6], Ok(f)));
        let r = self.6.get(stream);
        let ghost at = at.push(stream@);
        let g = match r {
            Ok(g) => g,
            Err(error) => {
                F::discard(f, stream);
                E::discard(e, stream);
                D::discard(d, stream);
                C::discard(c, stream);
                B::discard(b, stream);
                A::discard(a, stream);
                assert(stream@.marks =~= from.marks);
                assert(undone(at, 6, 11, from, stream@));
                return Err(error);
            },
        };
        assert(old(self).6.gets(self.6, at[6], at[7], Ok(g)));
        let r = self.7.get(stream);
        let ghost at = at.push(stream@);
        let h = match r {
            Ok(h) => h,
            Err(error) => {
                G::discard(g, stream);
                F::discard(f, stream);
                E::discard(e, stream);
                D::discard(d, stream);
                C::discard(c, stream);
                B::discard(b, stream);
                A::discard(a, stream);
                assert(stream@.marks =~= from.marks);
                assert(undone(at, 7, 11, from, stream@));
                return Err(error);
            },
        };
        assert(old(self).7.gets(self.7, at[7], at[8], Ok(h)));
        let r = self.8.get(stream);
        let ghost at = at.push(stream@);
        let i = match r {
            Ok(i) => i,
            Err(error) => {
                H::discard(h, stream);
                G::discard(g, stream);
                F::discard(f, stream);
                E::discard(e, stream);
                D::discard(d, stream);
                C::discard(c, stream);
                B::discard(b, stream);
                A::discard(a, stream);
                assert(stream@.marks =~= from.marks);
                assert(undone(at, 8, 11, from, stream@));
                return Err(error);
            },
        };
        assert(old(self).8.gets(self.8, at[8], at[9], Ok(i)));
        let r = self.9.get(stream);
        let ghost at = at.push(stream@);
        let j = match r {
            Ok(j) => j,
            Err(error) => {
                I::discard(i, stream);
                H::discard(h, stream);
                G::discard(g, stream);
                F::discard(f, stream);
                E::discard(e, stream);
                D::discard(d, stream);
                C::discard(c, stream);
                B::discard(b, stream);
                A::discard(a, stream);
                assert(stream@.marks =~= from.marks);
                assert(undone(at, 9, 11, from, stream@));
                return Err(error);
            },
        };
        assert(old(self).9.gets(self.9, at[9], at[10], Ok(j)));
        let r = self.10.get(stream);
        let ghost at = at.push(stream@);
        let k = match r {
            Ok(k) => k,
            Err(error) => {
                J::discard(j, stream);
                I::discard(i, stream);
                H::discard(h, stream);
                G::discard(g, stream);
                F::discard(f, stream);
                E::discard(e, stream);
                D::discard(d, stream);
                C::discard(c, stream);
                B::discard(b, stream);
                A::discard(a, stream);
                assert(stream@.marks =~= from.marks);
                assert(undone(at, 10, 11, from, stream@));
                return Err(error);
            },
        };
        assert(old(self).10.gets(self.10, at[10], at[11], Ok(k)));
        let output = (a, b, c, d, e, f, g, h, i, j, k);
        proof {
            assert(route(at, 10, 11, from, stream@, None));
            assert(stream@.marks =~= from.marks.add(Self::held(output)));
        }
        Ok(output)
    }

    fn discard(output: Self::Output, stream: &mut Self::Input) {
        let ghost marks = stream@.marks;
        let (a, b, c, d, e, f, g, h, i, j, k) = output;
        K::discard(k, stream);
        J::discard(j, stream);
        I::discard(i, stream);
        H::discard(h, stream);
        G::discard(g, stream);
        F::discard(f, stream);
        E::discard(e, stream);
        D::discard(d, stream);
        C::discard(c, stream);
        B::discard(b, stream);
        A::discard(a, stream);
        assert(stream@.marks =~= marks.sub(Self::held(output)));
    }
}

/// Applies twelve parsers in order.
impl<A, B, C, D, E, F, G, H, I, J, K, L> Parser for (A, B, C, D, E, F, G, H, I, J, K, L) where
    A: Parser,
    B: Parser<Input = A::Input>,
    C: Parser<Input = A::Input>,
    D: Parser<Input = A::Input>,
    E: Parser<Input = A::Input>,
    F: Parser<Input = A::Input>,
    G: Parser<Input = A::Input>,
    H: Parser<Input = A::Input>,
    I: Parser<Input = A::Input>,
    J: Parser<Input = A::Input>,
    K: Parser<Input = A::Input>,
    L: Parser<Input = A::Input>,
 {
    type Input = A::Input;

    type Output = (
        A::Output,
        B::Output,
        C::Output,
        D::Output,
        E::Output,
        F::Output,
        G::Output,
        H::Output,
        I::Output,
        J::Output,
        K::Output,
        L::Output,
    );

    open spec fn ready(&self, from: StreamState) -> bool {
        let rest = (
            self.1,
            self.2,
            self.3,
            self.4,
            self.5,
            self.6,
            self.7,
            self.8,
            self.9,
            self.10,
            self.11,
        );
        &&& self.0.ready(from)
        &&& forall|after: A, at: StreamState| #[trigger]
            self.0.parses(after, from, at, None) ==> rest.ready(at)
        &&& forall|after: A, at: StreamState, output: A::Output| #[trigger]
            self.0.gets(after, from, at, Ok(output)) ==> rest.ready(at)
    }

    open spec fn parses(
        &self,
        after: Self,
        from: StreamState,
        to: StreamState,
        error: Option<ParserError>,
    ) -> bool {
        exists|at: Seq<StreamState>, last: int|
            {
                &&& #[trigger] route(at, last, 12, from, to, error)
                &&& step(self.0, after.0, at[0], at[1], 0, last, error)
                &&& step(self.1, after.1, at[1], at[2], 1, last, error)
                &&& step(self.2, after.2, at[2], at[3], 2, last, error)
                &&& step(self.3, after.3, at[3], at[4], 3, last, error)
                &&& step(self.4, after.4, at[4], at[5], 4, last, error)
                &&& step(self.5, after.5, at[5], at[6], 5, last, error)
                &&& step(self.6, after.6, at[6], at[7], 6, last, error)
                &&& step(self.7, after.7, at[7], at[8], 7, last, error)
                &&& step(self.8, after.8, at[8], at[9], 8, last, error)
                &&& step(self.9, after.9, at[9], at[10], 9, last, error)
                &&& step(self.10, after.10, at[10], at[11], 10, last, error)
                &&& step(self.11, after.11, at[11], at[12], 11, last, error)
            }
    }

    open spec fn gets(
        &self,
        after: Self,
        from: StreamState,
        to: StreamState,
        r: Result<Self::Output, ParserError>,
    ) -> bool {
        match r {
            Ok(output) => exists|at: Seq<StreamState>|
                {
                    &&& #[trigger] route(at, 11, 12, from, to, None)
                    &&& self.0.gets(after.0, at[0], at[1], Ok(output.0))
                    &&& self.1.gets(after.1, at[1], at[2], Ok(output.1))
                    &&& self.2.gets(after.2, at[2], at[3], Ok(output.2))
                    &&& self.3.gets(after.3, at[3], at[4], Ok(output.3))
                    &&& self.4.gets(after.4, at[4], at[5], Ok(output.4))
                    &&& self.5.gets(after.5, at[5], at[6], Ok(output.5))
                    &&& self.6.gets(after.6, at[6], at[7], Ok(output.6))
                    &&& self.7.gets(after.7, at[7], at[8], Ok(output.7))
                    &&& self.8.gets(after.8, at[8], at[9], Ok(output.8))
                    &&& self.9.gets(after.9, at[9], at[10], Ok(output.9))
                    &&& self.10.gets(after.10, at[10], at[11], Ok(output.10))
                    &&& self.11.gets(after.11, at[11], at[12], Ok(output.11))
                },
            Err(error) => exists|at: Seq<StreamState>, last: int|
                {
                    &&& #[trigger] undone(at, last, 12, from, to)
                    &&& tries(self.0, after.0, at[0], at[1], 0, last, error)
                    &&& tries(self.1, after.1, at[1], at[2], 1, last, error)
                    &&& tries(self.2, after.2, at[2], at[3], 2, last, error)
                    &&& tries(self.3, after.3, at[3], at[4], 3, last, error)
                    &&& tries(self.4, after.4, at[4], at[5], 4, last, error)
                    &&& tries(self.5, after.5, at[5], at[6], 5, last, error)
                    &&& tries(self.6, after.6, at[6], at[7], 6, last, error)
                    &&& tries(self.7, after.7, at[7], at[8], 7, last, error)
                    &&& tries(self.8, after.8, at[8], at[9], 8, last, error)
                    &&& tries(self.9, after.9, at[9], at[10], 9, last, error)
                    &&& tries(self.10, after.10, at[10], at[11], 10, last, error)
                    &&& tries(self.11, after.11, at[11], at[12], 11, last, error)
                },
        }
    }

    open spec fn held(output: Self::Output) -> Multiset<nat> {
        A::held(output.0)
            .add(B::held(output.1))
            .add(C::held(output.2))
            .add(D::held(output.3))
            .add(E::held(output.4))
            .add(F::held(output.5))
            .add(G::held(output.6))
            .add(H::held(output.7))
            .add(I::held(output.8))
            .add(J::held(output.9))
            .add(K::held(output.10))
            .add(L::held(output.11))
    }

    fn parse(&mut self, stream: &mut Self::Input) -> (r: Result<(), ParserError>) {
        let ghost from = stream@;
        let ghost at = seq![from];
        let r = self.0.parse(stream);
        let ghost at = at.push(stream@);
        if let Err(error) = r {
            assert(route(at, 0, 12, from, stream@, Some(error)));
            return Err(error);
        }
        let r = self.1.parse(stream);
        let ghost at = at.push(stream@);
        if let Err(error) = r {
            assert(route(at, 1, 12, from, stream@, Some(error)));
            return Err(error);
        }
        let r = self.2.parse(stream);
        let ghost at = at.push(stream@);
        if let Err(error) = r {
            assert(route(at, 2, 12, from, stream@, Some(error)));
            return Err(error);
        }
        let r = self.3.parse(stream);
        let ghost at = at.push(stream@);
        if let Err(error) = r {
            assert(route(at, 3, 12, from, stream@, Some(error)));
            return Err(error);
        }
        let r = self.4.parse(stream);
        let ghost at = at.push(stream@);
        if let Err(error) = r {
            assert(route(at, 4, 12, from, stream@, Some(error)));
            return Err(error);
        }
        let r = self.5.parse(stream);
        let ghost at = at.push(stream@);
        if let Err(error) = r {
            assert(route(at, 5, 12, from, stream@, Some(error)));
            return Err(error);
        }
        let r = self.6.parse(stream);
        let ghost at = at.push(stream@);
        if let Err(error) = r {
            assert(route(at, 6, 12, from, stream@, Some(error)));
            return Err(error);
        }
        let r = self.7.parse(stream);
        let ghost at = at.push(stream@);
        if let Err(error) = r {
            assert(route(at, 7, 12, from, stream@, Some(error)));
            return Err(error);
        }
        let r = self.8.parse(stream);
        let ghost at = at.push(stream@);
        if let Err(error) = r {
            assert(route(at, 8, 12, from, stream@, Some(error)));
            return Err(error);
        }
        let r = self.9.parse(stream);
        let ghost at = at.push(stream@);
        if let Err(error) = r {
            assert(route(at, 9, 12, from, stream@, Some(error)));
            return Err(error);
        }
        let r = self.10.parse(stream);
        let ghost at = at.push(stream@);
        if let Err(error) = r {
            assert(route(at, 10, 12, from, stream@, Some(error)));
            return Err(error);
        }
        let r = self.11.parse(stream);
        let ghost at = at.push(stream@);
        assert(route(at, 11, 12, from, stream@, parser::failure(r)));
        r
    }

    fn get(&mut self, stream: &mut Self::Input) -> (r: Result<Self::Output, ParserError>) {
        let ghost from = stream@;
        let ghost at = seq![from];
        let r = self.0.get(stream);
        let ghost at = at.push(stream@);
        let a = match r {
            Ok(a) => a,
            Err(error) => {
                assert(stream@.marks =~= from.marks);
                assert(undone(at, 0, 12, from, stream@));
                return Err(error);
            },
        };
        assert(old(self).0.gets(self.0, at[0], at[1], Ok(a)));
        let r = self.1.get(stream);
        let ghost at = at.push(stream@);
        let b = match r {
            Ok(b) => b,
            Err(error) => {
                A::discard(a, stream);
                assert(stream@.marks =~= from.marks);
                assert(undone(at, 1, 12, from, stream@));
                return Err(error);
            },
        };
        assert(old(self).1.gets(self.1, at[1], at[2], Ok(b)));
        let r = self.2.get(stream);
        let ghost at = at.push(stream@);
        let c = match r {
            Ok(c) => c,
            Err(error) => {
                B::discard(b, stream);
                A::discard(a, stream);
                assert(stream@.marks =~= from.marks);
                assert(undone(at, 2, 12, from, stream@));
                return Err(error);
            },
        };
        assert(old(self).2.gets(self.2, at[2], at[3], Ok(c)));
        let r = self.3.get(stream);
        let ghost at = at.push(stream@);
        let d = match r {
            Ok(d) => d,
            Err(error) => {
                C::discard(c, stream);
                B::discard(b, stream);
                A::discard(a, stream);
                assert(stream@.marks =~= from.marks);
                assert(undone(at, 3, 12, from, stream@));
                return Err(error);
            },
        };
        assert(old(self).3.gets(self.3, at[3], at[4], Ok(d)));
        let r = self.4.get(stream);
        let ghost at = at.push(stream@);
        let e = match r {
            Ok(e) => e,
            Err(error) => {
                D::discard(d, stream);
                C::discard(c, stream);
                B::discard(b, stream);
                A::discard(a, stream);
                assert(stream@.marks =~= from.marks);
                assert(undone(at, 4, 12, from, stream@));
                return Err(error);
            },
        };
        assert(old(self).4.gets(self.4, at[4], at[5], Ok(e)));
        let r = self.5.get(stream);
        let ghost at = at.push(stream@);
        let f = match r {
            Ok(f) => f,
            Err(error) => {
                E::discard(e, stream);
                D::discard(d, stream);
                C::discard(c, stream);
                B::discard(b, stream);
                A::discard(a, stream);
                assert(stream@.marks =~= from.marks);
                assert(undone(at, 5, 12, from, stream@));
                return Err(error);
            },
        };
        assert(old(self).5.gets(self.5, at[5], at[6], Ok(f)));
        let r = self.6.get(stream);
        let ghost at = at.push(stream@);
        let g = match r {
            Ok(g) => g,
            Err(error) => {
                F::discard(f, stream);
                E::discard(e, stream);
                D::discard(d, stream);
                C::discard(c, stream);
                B::discard(b, stream);
                A::discard(a, stream);
                assert(stream@.marks =~= from.marks);
                assert(undone(at, 6, 12, from, stream@));
                return Err(error);
            },
        };
        assert(old(self).6.gets(self.6, at[6], at[7], Ok(g)));
        let r = self.7.get(stream);
        let ghost at = at.push(stream@);
        let h = match r {
            Ok(h) => h,
            Err(error) => {
                G::discard(g, stream);
                F::discard(f, stream);
                E::discard(e, stream);
                D::discard(d, stream);
                C::discard(c, stream);
                B::discard(b, stream);
                A::discard(a, stream);
                assert(stream@.marks =~= from.marks);
                assert(undone(at, 7, 12, from, stream@));
                return Err(error);
            },
        };
        assert(old(self).7.gets(self.7, at[7], at[8], Ok(h)));
        let r = self.8.get(stream);
        let ghost at = at.push(stream@);
        let i = match r {
            Ok(i) => i,
            Err(error) => {
                H::discard(h, stream);
                G::discard(g, stream);
                F::discard(f, stream);
                E::discard(e, stream);
                D::discard(d, stream);
                C::discard(c, stream);
                B::discard(b, stream);
                A::discard(a, stream);
                assert(stream@.marks =~= from.marks);
                assert(undone(at, 8, 12, from, stream@));
                return Err(error);
            },
        };
        assert(old(self).8.gets(self.8, at[8], at[9], Ok(i)));
        let r = self.9.get(stream);
        let ghost at = at.push(stream@);
        let j = match r {
            Ok(j) => j,
            Err(error) => {
                I::discard(i, stream);
                H::discard(h, stream);
                G::discard(g, stream);
                F::discard(f, stream);
                E::discard(e, stream);
                D::discard(d, stream);
                C::discard(c, stream);
                B::discard(b, stream);
                A::discard(a, stream);
                assert(stream@.marks =~= from.marks);
                assert(undone(at, 9, 12, from, stream@));
                return Err(error);
            },
        };
        assert(old(self).9.gets(self.9, at[9], at[10], Ok(j)));
        let r = self.10.get(stream);
        let ghost at = at.push(stream@);
        let k = match r {
            Ok(k) => k,
            Err(error) => {
                J::discard(j, stream);
                I::discard(i, stream);
                H::discard(h, stream);
                G::discard(g, stream);
                F::discard(f, stream);
                E::discard(e, stream);
                D::discard(d, stream);
                C::discard(c, stream);
                B::discard(b, stream);
                A::discard(a, stream);
                assert(stream@.marks =~= from.marks);
                assert(undone(at, 10, 12, from, stream@));
                return Err(error);
            },
        };
        assert(old(self).10.gets(self.10, at[10], at[11], Ok(k)));
        let r = self.11.get(stream);
        let ghost at = at.push(stream@);
        let l = match r {
            Ok(l) => l,
            Err(error) => {
                K::discard(k, stream);
                J::discard(j, stream);
                I::discard(i, stream);
                H::discard(h, stream);
                G::discard(g, stream);
                F::discard(f, stream);
                E::discard(e, stream);
                D::discard(d, stream);
                C::discard(c, stream);
                B::discard(b, stream);
                A::discard(a, stream);
                assert(stream@.marks =~= from.marks);
                assert(undone(at, 11, 12, from, stream@));
                return Err(error);
            },
        };
        assert(old(self).11.gets(self.11, at[11], at[12], Ok(l)));
        let output = (a, b, c, d, e, f, g, h, i, j, k, l);
        proof {
            assert(route(at, 11, 12, from, stream@, None));
            assert(stream@.marks =~= from.marks.add(Self::held(output)));
        }
        Ok(output)
    }

    fn discard(output: Self::Output, stream: &mut Self::Input) {
        let ghost marks = stream@.marks;
        let (a, b, c, d, e, f, g, h, i, j, k, l) = output;
        L::discard(l, stream);
        K::discard(k, stream);
        J::discard(j, stream);
        I::discard(i, stream);
        H::discard(h, stream);
        G::discard(g, stream);
        F::discard(f, stream);
        E::discard(e, stream);
        D::discard(d, stream);
        C::discard(c, stream);
        B::discard(b, stream);
        A::discard(a, stream);
        assert(stream@.marks =~= marks.sub(Self::held(output)));
    }
}

/// Applies thirteen parsers in order.
impl<A, B, C, D, E, F, G, H, I, J, K, L, M> Parser for (A, B, C, D, E, F, G, H, I, J, K, L, M) where
    A: Parser,
    B: Parser<Input = A::Input>,
    C: Parser<Input = A::Input>,
    D: Parser<Input = A::Input>,
    E: Parser<Input = A::Input>,
    F: Parser<Input = A::Input>,
    G: Parser<Input = A::Input>,
    H: Parser<Input = A::Input>,
    I: Parser<Input = A::Input>,
    J: Parser<Input = A::Input>,
    K: Parser<Input = A::Input>,
    L: Parser<Input = A::Input>,
    M: Parser<Input = A::Input>,
 {
    type Input = A::Input;

    type Output = (
        A::Output,
        B::Output,
        C::Output,
        D::Output,
        E::Output,
        F::Output,
        G::Output,
        H::Output,
        I::Output,
        J::Output,
        K::Output,
        L::Output,
        M::Output,
    );

    open spec fn ready(&self, from: StreamState) -> bool {
        let rest = (
            self.1,
            self.2,
            self.3,
            self.4,
            self.5,
            self.6,
            self.7,
            self.8,
            self.9,
            self.10,
            self.11,
            self.12,
        );
        &&& self.0.ready(from)
        &&& forall|after: A, at: StreamState| #[trigger]
            self.0.parses(after, from, at, None) ==> rest.ready(at)
        &&& forall|after: A, at: StreamState, output: A::Output| #[trigger]
            self.0.gets(after, from, at, Ok(output)) ==> rest.ready(at)
    }

    open spec fn parses(
        &self,
        after: Self,
        from: StreamState,
        to: StreamState,
        error: Option<ParserError>,
    ) -> bool {
        exists|at: Seq<StreamState>, last: int|
            {
                &&& #[trigger] route(at, last, 13, from, to, error)
                &&& step(self.0, after.0, at[0], at[1], 0, last, error)
                &&& step(self.1, after.1, at[1], at[2], 1, last, error)
                &&& step(self.2, after.2, at[2], at[3], 2, last, error)
                &&& step(self.3, after.3, at[3], at[4], 3, last, error)
                &&& step(self.4, after.4, at[4], at[5], 4, last, error)
                &&& step(self.5, after.5, at[5], at[6], 5, last, error)
                &&& step(self.6, after.6, at[6], at[7], 6, last, error)
                &&& step(self.7, after.7, at[7], at[8], 7, last, error)
                &&& step(self.8, after.8, at[8], at[9], 8, last, error)
                &&& step(self.9, after.9, at[9], at[10], 9, last, error)
                &&& step(self.10, after.10, at[10], at[11], 10, last, error)
                &&& step(self.11, after.11, at[11], at[12], 11, last, error)
                &&& step(self.12, after.12, at[12], at[13], 12, last, error)
            }
    }

    open spec fn gets(
        &self,
        after: Self,
        from: StreamState,
        to: StreamState,
        r: Result<Self::Output, ParserError>,
    ) -> bool {
        match r {
            Ok(output) => exists|at: Seq<StreamState>|
                {
                    &&& #[trigger] route(at, 12, 13, from, to, None)
                    &&& self.0.gets(after.0, at[0], at[1], Ok(output.0))
                    &&& self.1.gets(after.1, at[1], at[2], Ok(output.1))
                    &&& self.2.gets(after.2, at[2], at[3], Ok(output.2))
                    &&& self.3.gets(after.3, at[3], at[4], Ok(output.3))
                    &&& self.4.gets(after.4, at[4], at[5], Ok(output.4))
                    &&& self.5.gets(after.5, at[5], at[6], Ok(output.5))
                    &&& self.6.gets(after.6, at[6], at[7], Ok(output.6))
                    &&& self.7.gets(after.7, at[7], at[8], Ok(output.7))
                    &&& self.8.gets(after.8, at[8], at[9], Ok(output.8))
                    &&& self.9.gets(after.9, at[9], at[10], Ok(output.9))
                    &&& self.10.gets(after.10, at[10], at[11], Ok(output.10))
                    &&& self.11.gets(after.11, at[11], at[12], Ok(output.11))
                    &&& self.12.gets(after.12, at[12], at[13], Ok(output.12))
                },
            Err(error) => exists|at: Seq<StreamState>, last: int|
                {
                    &&& #[trigger] undone(at, last, 13, from, to)
                    &&& tries(self.0, after.0, at[0], at[1], 0, last, error)
                    &&& tries(self.1, after.1, at[1], at[2], 1, last, error)
                    &&& tries(self.2, after.2, at[2], at[3], 2, last, error)
                    &&& tries(self.3, after.3, at[3], at[4], 3, last, error)
                    &&& tries(self.4, after.4, at[4], at[5], 4, last, error)
                    &&& tries(self.5, after.5, at[5], at[6], 5, last, error)
                    &&& tries(self.6, after.6, at[6], at[7], 6, last, error)
                    &&& tries(self.7, after.7, at[7], at[8], 7, last, error)
                    &&& tries(self.8, after.8, at[8], at[9], 8, last, error)
                    &&& tries(self.9, after.9, at[9], at[10], 9, last, error)
                    &&& tries(self.10, after.10, at[10], at[11], 10, last, error)
                    &&& tries(self.11, after.11, at[11], at[12], 11, last, error)
                    &&& tries(self.12, after.12, at[12], at[13], 12, last, error)
                },
        }
    }

    open spec fn held(output: Self::Output) -> Multiset<nat> {
        A::held(output.0)
            .add(B::held(output.1))
            .add(C::held(output.2))
            .add(D::held(output.3))
            .add(E::held(output.4))
            .add(F::held(output.5))
            .add(G::held(output.6))
            .add(H::held(output.7))
            .add(I::held(output.8))
            .add(J::held(output.9))
            .add(K::held(output.10))
            .add(L::held(output.11))
            .add(M::held(output.12))
    }

    fn parse(&mut self, stream: &mut Self::Input) -> (r: Result<(), ParserError>) {
        let ghost from = stream@;
        let ghost at = seq![from];
        let r = self.0.parse(stream);
        let ghost at = at.push(stream@);
        if let Err(error) = r {
            assert(route(at, 0, 13, from, stream@, Some(error)));
            return Err(error);
        }
        let r = self.1.parse(stream);
        let ghost at = at.push(stream@);
        if let Err(error) = r {
            assert(route(at, 1, 13, from, stream@, Some(error)));
            return Err(error);
        }
        let r = self.2.parse(stream);
        let ghost at = at.push(stream@);
        if let Err(error) = r {
            assert(route(at, 2, 13, from, stream@, Some(error)));
            return Err(error);
        }
        let r = self.3.parse(stream);
        let ghost at = at.push(stream@);
        if let Err(error) = r {
            assert(route(at, 3, 13, from, stream@, Some(error)));
            return Err(error);
        }
        let r = self.4.parse(stream);
        let ghost at = at.push(stream@);
        if let Err(error) = r {
            assert(route(at, 4, 13, from, stream@, Some(error)));
            return Err(error);
        }
        let r = self.5.parse(stream);
        let ghost at = at.push(stream@);
        if let Err(error) = r {
            assert(route(at, 5, 13, from, stream@, Some(error)));
            return Err(error);
        }
        let r = self.6.parse(stream);
        let ghost at = at.push(stream@);
        if let Err(error) = r {
            assert(route(at, 6, 13, from, stream@, Some(error)));
            return Err(error);
        }
        let r = self.7.parse(stream);
        let ghost at = at.push(stream@);
        if let Err(error) = r {
            assert(route(at, 7, 13, from, stream@, Some(error)));
            return Err(error);
        }
        let r = self.8.parse(stream);
        let ghost at = at.push(stream@);
        if let Err(error) = r {
            assert(route(at, 8, 13, from, stream@, Some(error)));
            return Err(error);
        }
        let r = self.9.parse(stream);
        let ghost at = at.push(stream@);
        if let Err(error) = r {
            assert(route(at, 9, 13, from, stream@, Some(error)));
            return Err(error);
        }
        let r = self.10.parse(stream);
        let ghost at = at.push(stream@);
        if let Err(error) = r {
            assert(route(at, 10, 13, from, stream@, Some(error)));
            return Err(error);
        }
        let r = self.11.parse(stream);
        let ghost at = at.push(stream@);
        if let Err(error) = r {
            assert(route(at, 11, 13, from, stream@, Some(error)));
            return Err(error);
        }
        let r = self.12.parse(stream);
        let ghost at = at.push(stream@);
        assert(route(at, 12, 13, from, stream@, parser::failure(r)));
        r
    }

    fn get(&mut self, stream: &mut Self::Input) -> (r: Result<Self::Output, ParserError>) {
        let ghost from = stream@;
        let ghost at = seq![from];
        let r = self.0.get(stream);
        let ghost at = at.push(stream@);
        let a = match r {
            Ok(a) => a,
            Err(error) => {
                assert(stream@.marks =~= from.marks);
                assert(undone(at, 0, 13, from, stream@));
                return Err(error);
            },
        };
        assert(old(self).0.gets(self.0, at[0], at[1], Ok(a)));
        let r = self.1.get(stream);
        let ghost at = at.push(stream@);
        let b = match r {
            Ok(b) => b,
            Err(error) => {
                A::discard(a, stream);
                assert(stream@.marks =~= from.marks);
                assert(undone(at, 1, 13, from, stream@));
                return Err(error);
            },
        };
        assert(old(self).1.gets(self.1, at[1], at[2], Ok(b)));
        let r = self.2.get(stream);
        let ghost at = at.push(stream@);
        let c = match r {
            Ok(c) => c,
            Err(error) => {
                B::discard(b, stream);
                A::discard(a, stream);
                assert(stream@.marks =~= from.marks);
                assert(undone(at, 2, 13, from, stream@));
                return Err(error);
            },
        };
        assert(old(self).2.gets(self.2, at[2], at[3], Ok(c)));
        let r = self.3.get(stream);
        let ghost at = at.push(stream@);
        let d = match r {
            Ok(d) => d,
            Err(error) => {
                C::discard(c, stream);
                B::discard(b, stream);
                A::discard(a, stream);
                assert(stream@.marks =~= from.marks);
                assert(undone(at, 3, 13, from, stream@));
                return Err(error);
            },
        };
        assert(old(self).3.gets(self.3, at[3], at[4], Ok(d)));
        let r = self.4.get(stream);
        let ghost at = at.push(stream@);
        let e = match r {
            Ok(e) => e,
            Err(error) => {
                D::discard(d, stream);
                C::discard(c, stream);
                B::discard(b, stream);
                A::discard(a, stream);
                assert(stream@.marks =~= from.marks);
                assert(undone(at, 4, 13, from, stream@));
                return Err(error);
            },
        };
        assert(old(self).4.gets(self.4, at[4], at[5], Ok(e)));
        let r = self.5.get(stream);
        let ghost at = at.push(stream@);
        let f = match r {
            Ok(f) => f,
            Err(error) => {
                E::discard(e, stream);
                D::discard(d, stream);
                C::discard(c, stream);
                B::discard(b, stream);
                A::discard(a, stream);
                assert(stream@.marks =~= from.marks);
                assert(undone(at, 5, 13, from, stream@));
                return Err(error);
            },
        };
        assert(old(self).5.gets(self.5, at[5], at[6], Ok(f)));
        let r = self.6.get(stream);
        let ghost at = at.push(stream@);
        let g = match r {
            Ok(g) => g,
            Err(error) => {
                F::discard(f, stream);
                E::discard(e, stream);
                D::discard(d, stream);
                C::discard(c, stream);
                B::discard(b, stream);
                A::discard(a, stream);
                assert(stream@.marks =~= from.marks);
                assert(undone(at, 6, 13, from, stream@));
                return Err(error);
            },
        };
        assert(old(self).6.gets(self.6, at[6], at[7], Ok(g)));
        let r = self.7.get(stream);
        let ghost at = at.push(stream@);
        let h = match r {
            Ok(h) => h,
            Err(error) => {
                G::discard(g, stream);
                F::discard(f, stream);
                E::discard(e, stream);
                D::discard(d, stream);
                C::discard(c, stream);
                B::discard(b, stream);
                A::discard(a, stream);
                assert(stream@.marks =~= from.marks);
                assert(undone(at, 7, 13, from, stream@));
                return Err(error);
            },
        };
        assert(old(self).7.gets(self.7, at[7], at[8], Ok(h)));
        let r = self.8.get(stream);
        let ghost at = at.push(stream@);
        let i = match r {
            Ok(i) => i,
            Err(error) => {
                H::discard(h, stream);
                G::discard(g, stream);
                F::discard(f, stream);
                E::discard(e, stream);
                D::discard(d, stream);
                C::discard(c, stream);
                B::discard(b, stream);
                A::discard(a, stream);
                assert(stream@.marks =~= from.marks);
                assert(undone(at, 8, 13, from, stream@));
                return Err(error);
            },
        };
        assert(old(self).8.gets(self.8, at[8], at[9], Ok(i)));
        let r = self.9.get(stream);
        let ghost at = at.push(stream@);
        let j = match r {
            Ok(j) => j,
            Err(error) => {
                I::discard(i, stream);
                H::discard(h, stream);
                G::discard(g, stream);
                F::discard(f, stream);
                E::discard(e, stream);
                D::discard(d, stream);
                C::discard(c, stream);
                B::discard(b, stream);
                A::discard(a, stream);
                assert(stream@.marks =~= from.marks);
                assert(undone(at, 9, 13, from, stream@));
                return Err(error);
            },
        };
        assert(old(self).9.gets(self.9, at[9], at[10], Ok(j)));
        let r = self.10.get(stream);
        let ghost at = at.push(stream@);
        let k = match r {
            Ok(k) => k,
            Err(error) => {
                J::discard(j, stream);
                I::discard(i, stream);
                H::discard(h, stream);
                G::discard(g, stream);
                F::discard(f, stream);
                E::discard(e, stream);
                D::discard(d, stream);
                C::discard(c, stream);
                B::discard(b, stream);
                A::discard(a, stream);
                assert(stream@.marks =~= from.marks);
                assert(undone(at, 10, 13, from, stream@));
                return Err(error);
            },
        };
        assert(old(self).10.gets(self.10, at[10], at[11], Ok(k)));
        let r = self.11.get(stream);
        let ghost at = at.push(stream@);
        let l = match r {
            Ok(l) => l,
            Err(error) => {
                K::discard(k, stream);
                J::discard(j, stream);
                I::discard(i, stream);
                H::discard(h, stream);
                G::discard(g, stream);
                F::discard(f, stream);
                E::discard(e, stream);
                D::discard(d, stream);
                C::discard(c, stream);
                B::discard(b, stream);
                A::discard(a, stream);
                assert(stream@.marks =~= from.marks);
                assert(undone(at, 11, 13, from, stream@));
                return Err(error);
            },
        };
        assert(old(self).11.gets(self.11, at[11], at[12], Ok(l)));
        let r = self.12.get(stream);
        let ghost at = at.push(stream@);
        let m = match r {
            Ok(m) => m,
            Err(error) => {
                L::discard(l, stream);
                K::discard(k, stream);
                J::discard(j, stream);
                I::discard(i, stream);
                H::discard(h, stream);
                G::discard(g, stream);
                F::discard(f, stream);
                E::discard(e, stream);
                D::discard(d, stream);
                C::discard(c, stream);
                B::discard(b, stream);
                A::discard(a, stream);
                assert(stream@.marks =~= from.marks);
                assert(undone(at, 12, 13, from, stream@));
                return Err(error);
            },
        };
        assert(old(self).12.gets(self.12, at[12], at[13], Ok(m)));
        let output = (a, b, c, d, e, f, g, h, i, j, k, l, m);
        proof {
            assert(route(at, 12, 13, from, stream@, None));
            assert(stream@.marks =~= from.marks.add(Self::held(output)));
        }
        Ok(output)
    }

    fn discard(output: Self::Output, stream: &mut Self::Input) {
        let ghost marks = stream@.marks;
        let (a, b, c, d, e, f, g, h, i, j, k, l, m) = output;
        M::discard(m, stream);
        L::discard(l, stream);
        K::discard(k, stream);
        J::discard(j, stream);
        I::discard(i, stream);
        H::discard(h, stream);
        G::discard(g, stream);
        F::discard(f, stream);
        E::discard(e, stream);
        D::discard(d, stream);
        C::discard(c, stream);
        B::discard(b, stream);
        A::discard(a, stream);
        assert(stream@.marks =~= marks.sub(Self::held(output)));
    }
}

/// Applies fourteen parsers in order.
impl<A, B, C, D, E, F, G, H, I, J, K, L, M, N> Parser for (
    A,
    B,
    C,
    D,
    E,
    F,
    G,
    H,
    I,
    J,
    K,
    L,
    M,
    N,
) where
    A: Parser,
    B: Parser<Input = A::Input>,
    C: Parser<Input = A::Input>,
    D: Parser<Input = A::Input>,
    E: Parser<Input = A::Input>,
    F: Parser<Input = A::Input>,
    G: Parser<Input = A::Input>,
    H: Parser<Input = A::Input>,
    I: Parser<Input = A::Input>,
    J: Parser<Input = A::Input>,
    K: Parser<Input = A::Input>,
    L: Parser<Input = A::Input>,
    M: Parser<Input = A::Input>,
    N: Parser<Input = A::Input>,
 {
    type Input = A::Input;

    type Output = (
        A::Output,
        B::Output,
        C::Output,
        D::Output,
        E::Output,
        F::Output,
        G::Output,
        H::Output,
        I::Output,
        J::Output,
        K::Output,
        L::Output,
        M::Output,
        N::Output,
    );

    open spec fn ready(&self, from: StreamState) -> bool {
        let rest = (
            self.1,
            self.2,
            self.3,
            self.4,
            self.5,
            self.6,
            self.7,
            self.8,
            self.9,
            self.10,
            self.11,
            self.12,
            self.13,
        );
        &&& self.0.ready(from)
        &&& forall|after: A, at: StreamState| #[trigger]
            self.0.parses(after, from, at, None) ==> rest.ready(at)
        &&& forall|after: A, at: StreamState, output: A::Output| #[trigger]
            self.0.gets(after, from, at, Ok(output)) ==> rest.ready(at)
    }

    open spec fn parses(
        &self,
        after: Self,
        from: StreamState,
        to: StreamState,
        error: Option<ParserError>,
    ) -> bool {
        exists|at: Seq<StreamState>, last: int|
            {
                &&& #[trigger] route(at, last, 14, from, to, error)
                &&& step(self.0, after.0, at[0], at[1], 0, last, error)
                &&& step(self.1, after.1, at[1], at[2], 1, last, error)
                &&& step(self.2, after.2, at[2], at[3], 2, last, error)
                &&& step(self.3, after.3, at[3], at[4], 3, last, error)
                &&& step(self.4, after.4, at[4], at[5], 4, last, error)
                &&& step(self.5, after.5, at[5], at[6], 5, last, error)
                &&& step(self.6, after.6, at[6], at[7], 6, last, error)
                &&& step(self.7, after.7, at[7], at[8], 7, last, error)
                &&& step(self.8, after.8, at[8], at[9], 8, last, error)
                &&& step(self.9, after.9, at[9], at[10], 9, last, error)
                &&& step(self.10, after.10, at[10], at[11], 10, last, error)
                &&& step(self.11, after.11, at[11], at[12], 11, last, error)
                &&& step(self.12, after.12, at[12], at[13], 12, last, error)
                &&& step(self.13, after.13, at[13], at[14], 13, last, error)
            }
    }

    open spec fn gets(
        &self,
        after: Self,
        from: StreamState,
        to: StreamState,
        r: Result<Self::Output, ParserError>,
    ) -> bool {
        match r {
            Ok(output) => exists|at: Seq<StreamState>|
                {
                    &&& #[trigger] route(at, 13, 14, from, to, None)
                    &&& self.0.gets(after.0, at[0], at[1], Ok(output.0))
                    &&& self.1.gets(after.1, at[1], at[2], Ok(output.1))
                    &&& self.2.gets(after.2, at[2], at[3], Ok(output.2))
                    &&& self.3.gets(after.3, at[3], at[4], Ok(output.3))
                    &&& self.4.gets(after.4, at[4], at[5], Ok(output.4))
                    &&& self.5.gets(after.5, at[5], at[6], Ok(output.5))
                    &&& self.6.gets(after.6, at[6], at[7], Ok(output.6))
                    &&& self.7.gets(after.7, at[7], at[8], Ok(output.7))
                    &&& self.8.gets(after.8, at[8], at[9], Ok(output.8))
                    &&& self.9.gets(after.9, at[9], at[10], Ok(output.9))
                    &&& self.10.gets(after.10, at[10], at[11], Ok(output.10))
                    &&& self.11.gets(after.11, at[11], at[12], Ok(output.11))
                    &&& self.12.gets(after.12, at[12], at[13], Ok(output.12))
                    &&& self.13.gets(after.13, at[13], at[14], Ok(output.13))
                },
            Err(error) => exists|at: Seq<StreamState>, last: int|
                {
                    &&& #[trigger] undone(at, last, 14, from, to)
                    &&& tries(self.0, after.0, at[0], at[1], 0, last, error)
                    &&& tries(self.1, after.1, at[1], at[2], 1, last, error)
                    &&& tries(self.2, after.2, at[2], at[3], 2, last, error)
                    &&& tries(self.3, after.3, at[3], at[4], 3, last, error)
                    &&& tries(self.4, after.4, at[4], at[5], 4, last, error)
                    &&& tries(self.5, after.5, at[5], at[6], 5, last, error)
                    &&& tries(self.6, after.6, at[6], at[7], 6, last, error)
                    &&& tries(self.7, after.7, at[7], at[8], 7, last, error)
                    &&& tries(self.8, after.8, at[8], at[9], 8, last, error)
                    &&& tries(self.9, after.9, at[9], at[10], 9, last, error)
                    &&& tries(self.10, after.10, at[10], at[11], 10, last, error)
                    &&& tries(self.11, after.11, at[11], at[12], 11, last, error)
                    &&& tries(self.12, after.12, at[12], at[13], 12, last, error)
                    &&& tries(self.13, after.13, at[13], at[14], 13, last, error)
                },
        }
    }

    open spec fn held(output: Self::Output) -> Multiset<nat> {
        A::held(output.0)
            .add(B::held(output.1))
            .add(C::held(output.2))
            .add(D::held(output.3))
            .add(E::held(output.4))
            .add(F::held(output.5))
            .add(G::held(output.6))
            .add(H::held(output.7))
            .add(I::held(output.8))
            .add(J::held(output.9))
            .add(K::held(output.10))
            .add(L::held(output.11))
            .add(M::held(output.12))
            .add(N::held(output.13))
    }

    fn parse(&mut self, stream: &mut Self::Input) -> (r: Result<(), ParserError>) {
        let ghost from = stream@;
        let ghost at = seq![from];
        let r = self.0.parse(stream);
        let ghost at = at.push(stream@);
        if let Err(error) = r {
            assert(route(at, 0, 14, from, stream@, Some(error)));
            return Err(error);
        }
        let r = self.1.parse(stream);
        let ghost at = at.push(stream@);
        if let Err(error) = r {
            assert(route(at, 1, 14, from, stream@, Some(error)));
            return Err(error);
        }
        let r = self.2.parse(stream);
        let ghost at = at.push(stream@);
        if let Err(error) = r {
            assert(route(at, 2, 14, from, stream@, Some(error)));
            return Err(error);
        }
        let r = self.3.parse(stream);
        let ghost at = at.push(stream@);
        if let Err(error) = r {
            assert(route(at, 3, 14, from, stream@, Some(error)));
            return Err(error);
        }
        let r = self.4.parse(stream);
        let ghost at = at.push(stream@);
        if let Err(error) = r {
            assert(route(at, 4, 14, from, stream@, Some(error)));
            return Err(error);
        }
        let r = self.5.parse(stream);
        let ghost at = at.push(stream@);
        if let Err(error) = r {
            assert(route(at, 5, 14, from, stream@, Some(error)));
            return Err(error);
        }
        let r = self.6.parse(stream);
        let ghost at = at.push(stream@);
        if let Err(error) = r {
            assert(route(at, 6, 14, from, stream@, Some(error)));
            return Err(error);
        }
        let r = self.7.parse(stream);
        let ghost at = at.push(stream@);
        if let Err(error) = r {
            assert(route(at, 7, 14, from, stream@, Some(error)));
            return Err(error);
        }
        let r = self.8.parse(stream);
        let ghost at = at.push(stream@);
        if let Err(error) = r {
            assert(route(at, 8, 14, from, stream@, Some(error)));
            return Err(error);
        }
        let r = self.9.parse(stream);
        let ghost at = at.push(stream@);
        if let Err(error) = r {
            assert(route(at, 9, 14, from, stream@, Some(error)));
            return Err(error);
        }
        let r = self.10.parse(stream);
        let ghost at = at.push(stream@);
        if let Err(error) = r {
            assert(route(at, 10, 14, from, stream@, Some(error)));
            return Err(error);
        }
        let r = self.11.parse(stream);
        let ghost at = at.push(stream@);
        if let Err(error) = r {
            assert(route(at, 11, 14, from, stream@, Some(error)));
            return Err(error);
        }
        let r = self.12.parse(stream);
        let ghost at = at.push(stream@);
        if let Err(error) = r {
            assert(route(at, 12, 14, from, stream@, Some(error)));
            return Err(error);
        }
        let r = self.13.parse(stream);
        let ghost at = at.push(stream@);
        assert(route(at, 13, 14, from, stream@, parser::failure(r)));
        r
    }

    fn get(&mut self, stream: &mut Self::Input) -> (r: Result<Self::Output, ParserError>) {
        let ghost from = stream@;
        let ghost at = seq![from];
        let r = self.0.get(stream);
        let ghost at = at.push(stream@);
        let a = match r {
            Ok(a) => a,
            Err(error) => {
                assert(stream@.marks =~= from.marks);
                assert(undone(at, 0, 14, from, stream@));
                return Err(error);
            },
        };
        assert(old(self).0.gets(self.0, at[0], at[1], Ok(a)));
        let r = self.1.get(stream);
        let ghost at = at.push(stream@);
        let b = match r {
            Ok(b) => b,
            Err(error) => {
                A::discard(a, stream);
                assert(stream@.marks =~= from.marks);
                assert(undone(at, 1, 14, from, stream@));
                return Err(error);
            },
        };
        assert(old(self).1.gets(self.1, at[1], at[2], Ok(b)));
        let r = self.2.get(stream);
        let ghost at = at.push(stream@);
        let c = match r {
            Ok(c) => c,
            Err(error) => {
                B::discard(b, stream);
                A::discard(a, stream);
                assert(stream@.marks =~= from.marks);
                assert(undone(at, 2, 14, from, stream@));
                return Err(error);
            },
        };
        assert(old(self).2.gets(self.2, at[2], at[3], Ok(c)));
        let r = self.3.get(stream);
        let ghost at = at.push(stream@);
        let d = match r {
            Ok(d) => d,
            Err(error) => {
                C::discard(c, stream);
                B::discard(b, stream);
                A::discard(a, stream);
                assert(stream@.marks =~= from.marks);
                assert(undone(at, 3, 14, from, stream@));
                return Err(error);
            },
        };
        assert(old(self).3.gets(self.3, at[3], at[4], Ok(d)));
        let r = self.4.get(stream);
        let ghost at = at.push(stream@);
        let e = match r {
            Ok(e) => e,
            Err(error) => {
                D::discard(d, stream);
                C::discard(c, stream);
                B::discard(b, stream);
                A::discard(a, stream);
                assert(stream@.marks =~= from.marks);
                assert(undone(at, 4, 14, from, stream@));
                return Err(error);
            },
        };
        assert(old(self).4.gets(self.4, at[4], at[5], Ok(e)));
        let r = self.5.get(stream);
        let ghost at = at.push(stream@);
        let f = match r {
            Ok(f) => f,
            Err(error) => {
                E::discard(e, stream);
                D::discard(d, stream);
                C::discard(c, stream);
                B::discard(b, stream);
                A::discard(a, stream);
                assert(stream@.marks =~= from.marks);
                assert(undone(at, 5, 14, from, stream@));
                return Err(error);
            },
        };
        assert(old(self).5.gets(self.5, at[5], at[6], Ok(f)));
        let r = self.6.get(stream);
        let ghost at = at.push(stream@);
        let g = match r {
            Ok(g) => g,
            Err(error) => {
                F::discard(f, stream);
                E::discard(e, stream);
                D::discard(d, stream);
                C::discard(c, stream);
                B::discard(b, stream);
                A::discard(a, stream);
                assert(stream@.marks =~= from.marks);
                assert(undone(at, 6, 14, from, stream@));
                return Err(error);
            },
        };
        assert(old(self).6.gets(self.6, at[6], at[7], Ok(g)));
        let r = self.7.get(stream);
        let ghost at = at.push(stream@);
        let h = match r {
            Ok(h) => h,
            Err(error) => {
                G::discard(g, stream);
                F::discard(f, stream);
                E::discard(e, stream);
                D::discard(d, stream);
                C::discard(c, stream);
                B::discard(b, stream);
                A::discard(a, stream);
                assert(stream@.marks =~= from.marks);
                assert(undone(at, 7, 14, from, stream@));
                return Err(error);
            },
        };
        assert(old(self).7.gets(self.7, at[7], at[8], Ok(h)));
        let r = self.8.get(stream);
        let ghost at = at.push(stream@);
        let i = match r {
            Ok(i) => i,
            Err(error) => {
                H::discard(h, stream);
                G::discard(g, stream);
                F::discard(f, stream);
                E::discard(e, stream);
                D::discard(d, stream);
                C::discard(c, stream);
                B::discard(b, stream);
                A::discard(a, stream);
                assert(stream@.marks =~= from.marks);
                assert(undone(at, 8, 14, from, stream@));
                return Err(error);
            },
        };
        assert(old(self).8.gets(self.8, at[8], at[9], Ok(i)));
        let r = self.9.get(stream);
        let ghost at = at.push(stream@);
        let j = match r {
            Ok(j) => j,
            Err(error) => {
                I::discard(i, stream);
                H::discard(h, stream);
                G::discard(g, stream);
                F::discard(f, stream);
                E::discard(e, stream);
                D::discard(d, stream);
                C::discard(c, stream);
                B::discard(b, stream);
                A::discard(a, stream);
                assert(stream@.marks =~= from.marks);
                assert(undone(at, 9, 14, from, stream@));
                return Err(error);
            },
        };
        assert(old(self).9.gets(self.9, at[9], at[10], Ok(j)));
        let r = self.10.get(stream);
        let ghost at = at.push(stream@);
        let k = match r {
            Ok(k) => k,
            Err(error) => {
                J::discard(j, stream);
                I::discard(i, stream);
                H::discard(h, stream);
                G::discard(g, stream);
                F::discard(f, stream);
                E::discard(e, stream);
                D::discard(d, stream);
                C::discard(c, stream);
                B::discard(b, stream);
                A::discard(a, stream);
                assert(stream@.marks =~= from.marks);
                assert(undone(at, 10, 14, from, stream@));
                return Err(error);
            },
        };
        assert(old(self).10.gets(self.10, at[10], at[11], Ok(k)));
        let r = self.11.get(stream);
        let ghost at = at.push(stream@);
        let l = match r {
            Ok(l) => l,
            Err(error) => {
                K::discard(k, stream);
                J::discard(j, stream);
                I::discard(i, stream);
                H::discard(h, stream);
                G::discard(g, stream);
                F::discard(f, stream);
                E::discard(e, stream);
                D::discard(d, stream);
                C::discard(c, stream);
                B::discard(b, stream);
                A::discard(a, stream);
                assert(stream@.marks =~= from.marks);
                assert(undone(at, 11, 14, from, stream@));
                return Err(error);
            },
        };
        assert(old(self).11.gets(self.11, at[11], at[12], Ok(l)));
        let r = self.12.get(stream);
        let ghost at = at.push(stream@);
        let m = match r {
            Ok(m) => m,
            Err(error) => {
                L::discard(l, stream);
                K::discard(k, stream);
                J::discard(j, stream);
                I::discard(i, stream);
                H::discard(h, stream);
                G::discard(g, stream);
                F::discard(f, stream);
                E::discard(e, stream);
                D::discard(d, stream);
                C::discard(c, stream);
                B::discard(b, stream);
                A::discard(a, stream);
                assert(stream@.marks =~= from.marks);
                assert(undone(at, 12, 14, from, stream@));
                return Err(error);
            },
        };
        assert(old(self).12.gets(self.12, at[12], at[13], Ok(m)));
        let r = self.13.get(stream);
        let ghost at = at.push(stream@);
        let n = match r {
            Ok(n) => n,
            Err(error) => {
                M::discard(m, stream);
                L::discard(l, stream);
                K::discard(k, stream);
                J::discard(j, stream);
                I::discard(i, stream);
                H::discard(h, stream);
                G::discard(g, stream);
                F::discard(f, stream);
                E::discard(e, stream);
                D::discard(d, stream);
                C::discard(c, stream);
                B::discard(b, stream);
                A::discard(a, stream);
                assert(stream@.marks =~= from.marks);
                assert(undone(at, 13, 14, from, stream@));
                return Err(error);
            },
        };
        assert(old(self).13.gets(self.13, at[13], at[14], Ok(n)));
        let output = (a, b, c, d, e, f, g, h, i, j, k, l, m, n);
        proof {
            assert(route(at, 13, 14, from, stream@, None));
            assert(stream@.marks =~= from.marks.add(Self::held(output)));
        }
        Ok(output)
    }

    fn discard(output: Self::Output, stream: &mut Self::Input) {
        let ghost marks = stream@.marks;
        let (a, b, c, d, e, f, g, h, i, j, k, l, m, n) = output;
        N::discard(n, stream);
        M::discard(m, stream);
        L::discard(l, stream);
        K::discard(k, stream);
        J::discard(j, stream);
        I::discard(i, stream);
        H::discard(h, stream);
        G::discard(g, stream);
        F::discard(f, stream);
        E::discard(e, stream);
        D::discard(d, stream);
        C::discard(c, stream);
        B::discard(b, stream);
        A::discard(a, stream);
        assert(stream@.marks =~= marks.sub(Self::held(output)));
    }
}

} // verus!
