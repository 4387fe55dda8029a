//! Combinators which apply a parser again and again.
use crate::errors::{ParserError, ParserErrorKind};
use crate::parser;
use crate::parser::Parser;
use crate::recover;
use crate::streamer::{StreamState, Streamer};
use vstd::multiset::Multiset;
use vstd::prelude::*;

verus! {

/// Whether `parse` may succeed `n` times in a row, and turn the parser into `after` and the state
/// of the stream from `from` into `to`.
pub open spec fn repeats<P: Parser>(
    parser: P,
    after: P,
    from: StreamState,
    to: StreamState,
    n: nat,
) -> bool
    decreases n,
{
    if n == 0 {
        after == parser && to == from
    } else {
        exists|last: P, at: StreamState|
            {
                &&& repeats(parser, last, from, at, (n - 1) as nat)
                &&& #[trigger] last.parses(after, at, to, None)
            }
    }
}

/// Whether `get` may succeed with the given outputs in a row, and turn the parser into `after` and
/// the state of the stream from `from` into `to`. The outputs keep what they hold meanwhile.
pub open spec fn collects<P: Parser>(
    parser: P,
    after: P,
    from: StreamState,
    to: StreamState,
    outputs: Seq<P::Output>,
) -> bool
    decreases outputs.len(),
{
    if outputs.len() == 0 {
        after == parser && to == from
    } else {
        exists|last: P, at: StreamState|
            {
                &&& collects(parser, last, from, at, outputs.drop_last())
                &&& #[trigger] last.gets(after, at, to, Ok(outputs.last()))
            }
    }
}

/// Whether the parser cannot succeed more than `bound` times in a row.
pub open spec fn ends_within<P: Parser>(parser: P, from: StreamState, bound: nat) -> bool {
    &&& forall|last: P, at: StreamState, n: nat| #[trigger]
        repeats(parser, last, from, at, n) ==> n <= bound
    &&& forall|last: P, at: StreamState, outputs: Seq<P::Output>| #[trigger]
        collects(parser, last, from, at, outputs) ==> outputs.len() <= bound
}

/// Whether the parser can be repeated on a stream in the state `from`: it can be applied, and it
/// leaves the stream where it is if it fails without the stream failing.
pub open spec fn repeatable<P: Parser>(parser: P, from: StreamState) -> bool {
    parser.ready(from) && recover::stays_unless_stream_fails(parser, from)
}

/// One more success after `n` in a row.
pub proof fn lemma_repeats_push<P: Parser>(
    parser: P,
    last: P,
    after: P,
    from: StreamState,
    at: StreamState,
    to: StreamState,
    n: nat,
)
    requires
        repeats(parser, last, from, at, n),
        last.parses(after, at, to, None),
    ensures
        repeats(parser, after, from, to, n + 1),
{
    assert(((n + 1) - 1) as nat == n);
    assert(repeats(parser, last, from, at, ((n + 1) - 1) as nat));
}

/// One more output after others.
pub proof fn lemma_collects_push<P: Parser>(
    parser: P,
    last: P,
    after: P,
    from: StreamState,
    at: StreamState,
    to: StreamState,
    outputs: Seq<P::Output>,
    output: P::Output,
)
    requires
        collects(parser, last, from, at, outputs),
        last.gets(after, at, to, Ok(output)),
    ensures
        collects(parser, after, from, to, outputs.push(output)),
        held_by_all::<P>(outputs.push(output)) == held_by_all::<P>(outputs).add(P::held(output)),
{
    let all = outputs.push(output);
    assert(all.drop_last() =~= outputs);
    assert(collects(parser, last, from, at, all.drop_last()));
    assert(last.gets(after, at, to, Ok(all.last())));
}

/// The positions of the checkpoints that the outputs of a parser hold.
pub open spec fn held_by_all<P: Parser>(outputs: Seq<P::Output>) -> Multiset<nat>
    decreases outputs.len(),
{
    if outputs.len() == 0 {
        Multiset::empty()
    } else {
        held_by_all::<P>(outputs.drop_last()).add(P::held(outputs.last()))
    }
}

/// Gives the checkpoints that the outputs of a parser hold back to their stream.
fn discard_all<P: Parser>(outputs: Vec<P::Output>, stream: &mut P::Input)
    requires
        old(stream).wf(),
        held_by_all::<P>(outputs@).subset_of(old(stream)@.marks),
    ensures
        final(stream).wf(),
        final(stream)@ == old(stream)@.released_all(held_by_all::<P>(outputs@)),
{
    let mut outputs = outputs;
    let ghost all = held_by_all::<P>(outputs@);
    assert(stream@.marks =~= old(stream)@.marks.sub(all).add(all));
    while outputs.len() > 0
        invariant
            stream.wf(),
            stream@ == old(stream)@.with_marks(
                old(stream)@.marks.sub(all).add(held_by_all::<P>(outputs@)),
            ),
        decreases outputs@.len(),
    {
        let ghost left = held_by_all::<P>(outputs@.drop_last());
        let ghost rest = old(stream)@.marks.sub(all);
        let last = outputs.pop().unwrap();
        P::discard(last, stream);
        assert(stream@.marks =~= rest.add(left));
    }
    assert(stream@.marks =~= old(stream)@.marks.sub(all));
}

/// Applies a parser as many times as possible.
pub struct Many<P>(P);

impl<P> Many<P> {
    /// The parser that is repeated.
    pub closed spec fn inner(&self) -> P {
        self.0
    }
}

impl<P: Parser> Parser for Many<P> {
    type Input = P::Input;

    type Output = Vec<P::Output>;

    /// However often the repeated parser has succeeded, it can be applied again, and it leaves the
    /// stream where it is if it fails without the stream failing. It cannot succeed for ever.
    open spec fn ready(&self, from: StreamState) -> bool {
        &&& forall|last: P, at: StreamState, n: nat| #[trigger]
            repeats(self.inner(), last, from, at, n) ==> repeatable(last, at)
        &&& forall|last: P, at: StreamState, outputs: Seq<P::Output>| #[trigger]
            collects(self.inner(), last, from, at, outputs) ==> repeatable(last, at)
        &&& exists|bound: nat| #[trigger] ends_within(self.inner(), from, bound)
    }

    open spec fn parses(
        &self,
        after: Self,
        from: StreamState,
        to: StreamState,
        error: Option<ParserError>,
    ) -> bool {
        exists|last: P, at: StreamState, n: nat|
            {
                &&& #[trigger] repeats(self.inner(), last, from, at, n)
                &&& match error {
                    None => recover::gives_up(last, after.inner(), at, to),
                    Some(e) => {
                        &&& e.stream_failure()
                        &&& last.parses(after.inner(), at, to, error)
                    },
                }
            }
    }

    /// If the stream fails, the outputs give back what they hold.
    open spec fn gets(
        &self,
        after: Self,
        from: StreamState,
        to: StreamState,
        r: Result<Vec<P::Output>, ParserError>,
    ) -> bool {
        exists|last: P, at: StreamState, outputs: Seq<P::Output>|
            {
                &&& #[trigger] collects(self.inner(), last, from, at, outputs)
                &&& match r {
                    Ok(output) => {
                        &&& output@ == outputs
                        &&& recover::get_gives_up(last, after.inner(), at, to)
                    },
                    Err(e) => {
                        &&& e.stream_failure()
                        &&& exists|there: StreamState|
                            {
                                &&& #[trigger] last.gets(after.inner(), at, there, Err(e))
                                &&& to == there.with_marks(from.marks)
                            }
                    },
                }
            }
    }

    open spec fn held(output: Vec<P::Output>) -> Multiset<nat> {
        held_by_all::<P>(output@)
    }

    /// Applies the parser as many times as possible (maybe zero times). Fails only when the stream
    /// does, and does not go back to where it started then.
    fn parse(&mut self, stream: &mut P::Input) -> (r: Result<(), ParserError>) {
        let ghost from = stream@;
        let ghost bound = choose|bound: nat| ends_within(self.inner(), from, bound);
        let ghost mut n: nat = 0;
        loop
            invariant
                old(self).ready(from),
                ends_within(old(self).inner(), from, bound),
                from == old(stream)@,
                stream.wf(),
                stream@.feed == from.feed,
                stream@.marks == from.marks,
                from.pos <= stream@.pos,
                repeats(old(self).inner(), self.inner(), from, stream@, n),
            decreases bound - n,
        {
            let ghost last = self.inner();
            let ghost at = stream@;
            let r = self.0.parse(stream);
            assert(last.parses(self.inner(), at, stream@, parser::failure(r)));
            match r {
                Ok(()) => {
                    proof {
                        lemma_repeats_push(
                            old(self).inner(),
                            last,
                            self.inner(),
                            from,
                            at,
                            stream@,
                            n,
                        );
                        n = n + 1;
                    }
                },
                Err(error) => {
                    assert(repeats(old(self).inner(), last, from, at, n));
                    if error.is_stream_failure() {
                        return Err(error);
                    }
                    assert(recover::gives_up(last, self.inner(), at, stream@));
                    return Ok(());
                },
            }
        }
    }

    /// Applies the parser as many times as possible (maybe zero times), and returns all the
    /// outputs. Fails only when the stream does, and does not go back to where it started then.
    fn get(&mut self, stream: &mut P::Input) -> (r: Result<Vec<P::Output>, ParserError>) {
        let ghost from = stream@;
        let ghost bound = choose|bound: nat| ends_within(self.inner(), from, bound);
        let mut outputs: Vec<P::Output> = Vec::new();
        assert(stream@.marks =~= from.marks.add(held_by_all::<P>(outputs@)));
        loop
            invariant
                old(self).ready(from),
                ends_within(old(self).inner(), from, bound),
                from == old(stream)@,
                stream.wf(),
                stream@.feed == from.feed,
                stream@.marks == from.marks.add(held_by_all::<P>(outputs@)),
                from.pos <= stream@.pos,
                collects(old(self).inner(), self.inner(), from, stream@, outputs@),
            decreases bound - outputs@.len(),
        {
            let ghost last = self.inner();
            let ghost at = stream@;
            let ghost before = outputs@;
            let r = self.0.get(stream);
            assert(last.gets(self.inner(), at, stream@, r));
            match r {
                Ok(output) => {
                    proof {
                        lemma_collects_push(
                            old(self).inner(),
                            last,
                            self.inner(),
                            from,
                            at,
                            stream@,
                            before,
                            output,
                        );
                    }
                    outputs.push(output);
                    assert(stream@.marks =~= from.marks.add(held_by_all::<P>(outputs@)));
                },
                Err(error) => {
                    assert(collects(old(self).inner(), last, from, at, before));
                    if error.is_stream_failure() {
                        let ghost there = stream@;
                        assert(last.gets(self.inner(), at, there, Err(error)));
                        discard_all::<P>(outputs, stream);
                        assert(stream@ =~= there.with_marks(from.marks));
                        return Err(error);
                    }
                    assert(recover::get_gives_up(last, self.inner(), at, stream@));
                    return Ok(outputs);
                },
            }
        }
    }

    fn discard(output: Vec<P::Output>, stream: &mut P::Input) {
        discard_all::<P>(output, stream)
    }
}

/// Applies the given parser as many times as possible (maybe zero times), and returns the outputs.
pub fn many<S: Streamer, P: Parser<Input = S>>(parser: P) -> (r: Many<P>)
    ensures
        r.inner() == parser,
{
    Many(parser)
}

/// Applies a parser as many times as possible, and fails if that is too often.
pub struct ManyMax<P>(P, usize);

impl<P> ManyMax<P> {
    /// The parser that is repeated.
    pub closed spec fn inner(&self) -> P {
        self.0
    }

    /// The largest number of successes that are not too many.
    pub closed spec fn max_count(&self) -> nat {
        self.1 as nat
    }
}

/// Whether applying the parser once more than it may succeed turns the state `from` into `to` with
/// the outcome `error`: a success is undone, and is too many.
pub open spec fn expects_no_more<P: Parser>(
    parser: P,
    after: P,
    from: StreamState,
    to: StreamState,
    error: Option<ParserError>,
) -> bool {
    exists|there: StreamState, found: Option<ParserError>|
        {
            &&& #[trigger] parser.parses(after, from.marked(), there, found)
            &&& match found {
                None => {
                    &&& error matches Some(ParserError::Lazy(at, ParserErrorKind::TooMany))
                    &&& at == from.pos
                    &&& there.resets(to, from.pos)
                },
                Some(e) => {
                    &&& error == if e.stream_failure() {
                        found
                    } else {
                        None
                    }
                    &&& !e.stream_failure() ==> to.pos == from.pos
                    &&& to == there.released(from.pos)
                },
            }
        }
}

impl<P: Parser> ManyMax<P> {
    /// Whether the repeated parser, which has turned into `last` and the state of the stream into
    /// `at` with the given outputs, may stop with the result `r` in the state `there`.
    pub open spec fn stops(
        &self,
        after: Self,
        last: P,
        at: StreamState,
        there: StreamState,
        outputs: Seq<P::Output>,
        r: Result<Vec<P::Output>, ParserError>,
    ) -> bool {
        if outputs.len() == self.max_count() {
            expects_no_more(last, after.inner(), at, there, parser::failure(r))
        } else {
            match r {
                Ok(_) => recover::get_gives_up(last, after.inner(), at, there),
                Err(e) => e.stream_failure() && last.gets(after.inner(), at, there, Err(e)),
            }
        }
    }

    /// Applies the parser once more after it succeeded as often as it may: this fails if the parser
    /// succeeds, and goes back then.
    fn expect_no_more(&mut self, stream: &mut P::Input) -> (r: Result<(), ParserError>)
        requires
            old(stream).wf(),
            repeatable(old(self).inner(), old(stream)@.marked()),
        ensures
            final(stream).wf(),
            final(stream)@.feed == old(stream)@.feed,
            final(stream)@.marks == old(stream)@.marks,
            final(self).max_count() == old(self).max_count(),
            r matches Err(error) ==> error.told_by(final(stream)@.answers),
            r is Ok ==> final(stream)@.pos == old(stream)@.pos,
            expects_no_more(
                old(self).inner(),
                final(self).inner(),
                old(stream)@,
                final(stream)@,
                parser::failure(r),
            ),
    {
        let ghost from = stream@;
        let checkpoint = stream.checkpoint();
        let r = self.0.parse(stream);
        let ghost there = stream@;
        assert(old(self).inner().parses(self.inner(), from.marked(), there, parser::failure(r)));
        match r {
            Ok(()) => {
                stream.reset(checkpoint);
                assert(stream@.marks =~= from.marks);
                Err(ParserError::Lazy(stream.position(), ParserErrorKind::TooMany))
            },
            Err(error) => {
                stream.release(checkpoint);
                assert(stream@.marks =~= from.marks);
                if error.is_stream_failure() {
                    Err(error)
                } else {
                    Ok(())
                }
            },
        }
    }
}

impl<P: Parser> Parser for ManyMax<P> {
    type Input = P::Input;

    type Output = Vec<P::Output>;

    /// As long as the repeated parser has not succeeded too often, it can be applied again, and it
    /// leaves the stream where it is if it fails without the stream failing.
    open spec fn ready(&self, from: StreamState) -> bool {
        &&& forall|last: P, at: StreamState, n: nat| #[trigger]
            repeats(self.inner(), last, from, at, n) ==> {
                &&& n < self.max_count() ==> repeatable(last, at)
                &&& n == self.max_count() ==> repeatable(last, at.marked())
            }
        &&& forall|last: P, at: StreamState, outputs: Seq<P::Output>| #[trigger]
            collects(self.inner(), last, from, at, outputs) ==> {
                &&& outputs.len() < self.max_count() ==> repeatable(last, at)
                &&& outputs.len() == self.max_count() ==> repeatable(last, at.marked())
            }
    }

    open spec fn parses(
        &self,
        after: Self,
        from: StreamState,
        to: StreamState,
        error: Option<ParserError>,
    ) -> bool {
        &&& after.max_count() == self.max_count()
        &&& exists|last: P, at: StreamState, n: nat|
            {
                &&& n <= self.max_count()
                &&& #[trigger] repeats(self.inner(), last, from, at, n)
                &&& if n == self.max_count() {
                    expects_no_more(last, after.inner(), at, to, error)
                } else {
                    match error {
                        None => recover::gives_up(last, after.inner(), at, to),
                        Some(e) => {
                            &&& e.stream_failure()
                            &&& last.parses(after.inner(), at, to, error)
                        },
                    }
                }
            }
    }

    /// If there are too many or the stream fails, the outputs give back what they hold.
    open spec fn gets(
        &self,
        after: Self,
        from: StreamState,
        to: StreamState,
        r: Result<Vec<P::Output>, ParserError>,
    ) -> bool {
        &&& after.max_count() == self.max_count()
        &&& exists|last: P, at: StreamState, there: StreamState, outputs: Seq<P::Output>|
            {
                &&& outputs.len() <= self.max_count()
                &&& #[trigger] collects(self.inner(), last, from, at, outputs)
                &&& #[trigger] self.stops(after, last, at, there, outputs, r)
                &&& match r {
                    Ok(output) => output@ == outputs && to == there,
                    Err(_) => to == there.with_marks(from.marks),
                }
            }
    }

    open spec fn held(output: Vec<P::Output>) -> Multiset<nat> {
        held_by_all::<P>(output@)
    }

    /// Applies the parser as many times as possible (maybe zero times). Fails when the stream does,
    /// or with `ParserErrorKind::TooMany` when the parser can be applied more than `max_count`
    /// times, and does not go back to where it started then: it is after the first `max_count`
    /// times.
    fn parse(&mut self, stream: &mut P::Input) -> (r: Result<(), ParserError>) {
        let ghost from = stream@;
        let max_count: usize = self.1;
        let mut n: usize = 0;
        while n < max_count
            invariant
                old(self).ready(from),
                max_count == old(self).max_count(),
                self.max_count() == max_count,
                n <= max_count,
                from == old(stream)@,
                stream.wf(),
                stream@.feed == from.feed,
                stream@.marks == from.marks,
                from.pos <= stream@.pos,
                repeats(old(self).inner(), self.inner(), from, stream@, n as nat),
            decreases max_count - n,
        {
            let ghost last = self.inner();
            let ghost at = stream@;
            let r = self.0.parse(stream);
            assert(last.parses(self.inner(), at, stream@, parser::failure(r)));
            match r {
                Ok(()) => {
                    proof {
                        lemma_repeats_push(
                            old(self).inner(),
                            last,
                            self.inner(),
                            from,
                            at,
                            stream@,
                            n as nat,
                        );
                    }
                },
                Err(error) => {
                    assert(repeats(old(self).inner(), last, from, at, n as nat));
                    if error.is_stream_failure() {
                        return Err(error);
                    }
                    assert(recover::gives_up(last, self.inner(), at, stream@));
                    return Ok(());
                },
            }
            n = n + 1;
        }
        self.expect_no_more(stream)
    }

    /// Applies the parser as many times as possible (maybe zero times), and returns all the
    /// outputs. Fails when the stream does, or with `ParserErrorKind::TooMany` when the parser can
    /// be applied more than `max_count` times, and does not go back to where it started then: it is
    /// after the first `max_count` times.
    fn get(&mut self, stream: &mut P::Input) -> (r: Result<Vec<P::Output>, ParserError>) {
        let ghost from = stream@;
        let mut outputs: Vec<P::Output> = Vec::new();
        assert(stream@.marks =~= from.marks.add(held_by_all::<P>(outputs@)));
        let max_count: usize = self.1;
        let mut n: usize = 0;
        while n < max_count
            invariant
                old(self).ready(from),
                max_count == old(self).max_count(),
                self.max_count() == max_count,
                n <= max_count,
                n == outputs@.len(),
                from == old(stream)@,
                stream.wf(),
                stream@.feed == from.feed,
                stream@.marks == from.marks.add(held_by_all::<P>(outputs@)),
                from.pos <= stream@.pos,
                collects(old(self).inner(), self.inner(), from, stream@, outputs@),
            decreases max_count - n,
        {
            let ghost last = self.inner();
            let ghost at = stream@;
            let ghost before = outputs@;
            let r = self.0.get(stream);
            assert(last.gets(self.inner(), at, stream@, r));
            match r {
                Ok(output) => {
                    proof {
                        lemma_collects_push(
                            old(self).inner(),
                            last,
                            self.inner(),
                            from,
                            at,
                            stream@,
                            before,
                            output,
                        );
                    }
                    outputs.push(output);
                    assert(stream@.marks =~= from.marks.add(held_by_all::<P>(outputs@)));
                },
                Err(error) => {
                    let ghost there = stream@;
                    assert(collects(old(self).inner(), last, from, at, before));
                    if error.is_stream_failure() {
                        assert(last.gets(self.inner(), at, there, Err(error)));
                        assert(old(self).stops(*self, last, at, there, before, Err(error)));
                        discard_all::<P>(outputs, stream);
                        assert(stream@ =~= there.with_marks(from.marks));
                        return Err(error);
                    }
                    assert(recover::get_gives_up(last, self.inner(), at, there));
                    assert(old(self).stops(*self, last, at, there, before, Ok(outputs)));
                    return Ok(outputs);
                },
            }
            n = n + 1;
        }
        let ghost last = self.inner();
        let ghost at = stream@;
        let ghost all = outputs@;
        let r = self.expect_no_more(stream);
        let ghost there = stream@;
        match r {
            Ok(()) => {
                assert(old(self).stops(*self, last, at, there, all, Ok(outputs)));
                Ok(outputs)
            },
            Err(error) => {
                assert(old(self).stops(*self, last, at, there, all, Err(error)));
                discard_all::<P>(outputs, stream);
                assert(stream@ =~= there.with_marks(from.marks));
                Err(error)
            },
        }
    }

    fn discard(output: Vec<P::Output>, stream: &mut P::Input) {
        discard_all::<P>(output, stream)
    }
}

/// Applies the given parser as many times as possible (maybe zero times), and returns the outputs.
/// Fails if the parser can be applied more than `max_count` times.
pub fn many_max<P>(parser: P, max_count: usize) -> (r: ManyMax<P>)
    ensures
        r.inner() == parser,
        r.max_count() == max_count,
{
    ManyMax(parser, max_count)
}

} // verus!
