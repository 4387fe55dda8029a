//! What a parser reads from.
use crate::errors::StreamError;
use crate::text;
use vstd::multiset::Multiset;
use vstd::prelude::*;
use vstd::utf8::*;

verus! {

/// What of a stream never changes: its text, what may stop it before its end, and its size.
#[verifier::ext_equal]
pub struct Feed {
    /// The characters of the stream, from its beginning to its end, in UTF-8.
    pub text: Seq<u8>,
    /// Whether bytes that are not UTF-8 follow the text.
    pub malformed: bool,
    /// How many bytes the stream asks of its source at a time.
    pub chunk: nat,
    /// Whether the source of the stream may fail.
    pub faulty: bool,
    /// Whether the source of the stream may fail with an unexpected end before its end.
    pub abrupt: bool,
    /// How many bytes of its text the stream can hold.
    pub room: nat,
}

impl Feed {
    /// Whether the text may not fit in the stream.
    pub open spec fn cramped(&self) -> bool {
        self.text.len() + self.chunk > self.room
    }

    /// Whether nothing but the end of the text stops the stream.
    pub open spec fn steady(&self) -> bool {
        !self.malformed && !self.faulty && !self.abrupt && !self.cramped()
    }

    /// Whether nothing but the end of the text stops a stream that stands at `at`.
    pub open spec fn steady_at(&self, at: nat) -> bool {
        &&& !self.faulty && !self.abrupt && !self.cramped()
        &&& self.malformed ==> at + self.chunk <= self.text.len()
    }
}

/// Whether `least` is the smallest of `limit` and the positions in `marks`.
pub open spec fn is_least(least: nat, marks: Multiset<nat>, limit: nat) -> bool {
    &&& least <= limit
    &&& forall|mark: nat| #[trigger] marks.count(mark) > 0 ==> least <= mark
    &&& least == limit || marks.count(least) > 0
}

/// Where a stream is.
///
/// A stream holds a part of its text. It gives the characters of that part, and can go back in it.
/// At the end of the part it asks its source for more, and forgets what nothing can go back to.
#[verifier::ext_equal]
pub struct StreamState {
    /// What the stream delivers.
    pub feed: Feed,
    /// The current position, in bytes since the beginning of the text.
    pub pos: nat,
    /// The position that `before` goes back to.
    pub back: Option<nat>,
    /// The positions of the checkpoints that were not given back yet.
    pub marks: Multiset<nat>,
    /// Where the text that the stream holds begins.
    pub base: nat,
    /// Where the text that the stream holds ends.
    pub fetched: nat,
    /// What stops the stream at the end of the text that it holds, if that is known.
    pub end: Option<StreamError>,
    /// What `next` has answered so far.
    pub answers: Seq<Result<char, StreamError>>,
}

impl StreamState {
    /// Whether a stream can be like this.
    pub open spec fn fits(self) -> bool {
        let text = self.feed.text;
        &&& valid_utf8(text)
        &&& text.len() <= u64::MAX
        &&& text::is_boundary(text, self.pos)
        &&& text::is_boundary(text, self.base)
        &&& text::is_boundary(text, self.fetched)
        &&& self.base <= self.pos <= self.fetched <= text.len()
        &&& self.fetched - self.base <= self.feed.room
        &&& self.back matches Some(back) ==> self.base <= back
        &&& self.back_fits()
        &&& forall|mark: nat| #[trigger]
            self.marks.count(mark) > 0 ==> text::is_boundary(text, mark) && self.base <= mark
                <= self.fetched
        &&& match self.end {
            None => true,
            Some(StreamError::EndOfInput) => self.fetched == text.len() && !self.feed.malformed,
            Some(StreamError::Utf8Error) => self.feed.malformed && text.len() < self.fetched
                + self.feed.chunk,
            Some(_) => false,
        }
    }

    /// Whether the position that `before` goes back to, if there is one, is one character before
    /// the current position.
    pub open spec fn back_fits(self) -> bool {
        match self.back {
            Some(back) => {
                &&& text::is_boundary(self.feed.text, back)
                &&& back < self.feed.text.len()
                &&& back + text::width_at(self.feed.text, back) == self.pos
            },
            None => true,
        }
    }

    /// The state with one more checkpoint, at the current position.
    pub open spec fn marked(self) -> StreamState {
        StreamState { marks: self.marks.insert(self.pos), ..self }
    }

    /// The state without the checkpoint at `mark`.
    pub open spec fn released(self, mark: nat) -> StreamState {
        StreamState { marks: self.marks.remove(mark), ..self }
    }

    /// The state without the checkpoints at `held`.
    pub open spec fn released_all(self, held: Multiset<nat>) -> StreamState {
        StreamState { marks: self.marks.sub(held), ..self }
    }

    /// The state with the checkpoints at `marks` and no others.
    pub open spec fn with_marks(self, marks: Multiset<nat>) -> StreamState {
        StreamState { marks, ..self }
    }

    /// The state one character before.
    pub open spec fn stepped_back(self) -> StreamState {
        StreamState { pos: self.back->0, back: None, ..self }
    }

    /// The position up to which the text may be forgotten, checkpoints aside.
    pub open spec fn forgettable(self) -> nat {
        match self.back {
            Some(back) => back,
            None => self.pos,
        }
    }

    /// Whether there is no room for another chunk behind the text that can be gone back to.
    pub open spec fn full(self) -> bool {
        ||| self.pos + self.feed.chunk > self.feed.room + self.forgettable()
        ||| exists|mark: nat| #[trigger]
            self.marks.count(mark) > 0 && self.pos + self.feed.chunk > self.feed.room + mark
    }

    /// Whether the stream holds the same text as in the state `other`.
    pub open spec fn holds_same(self, other: StreamState) -> bool {
        &&& self.base == other.base
        &&& self.fetched == other.fetched
        &&& self.end == other.end
    }

    /// Whether reading a character may turn the state into `after` with the answer `r`.
    ///
    /// The text that the stream holds comes first. Then comes what is known to stop the stream. If
    /// nothing is known, the stream forgets what nothing can go back to. If it is full then, it
    /// says so. Otherwise it asks its source.
    pub open spec fn reads(self, after: StreamState, r: Result<char, StreamError>) -> bool {
        &&& after.feed == self.feed
        &&& after.marks == self.marks
        &&& after.answers == self.answers.push(r)
        &&& after.fits()
        &&& match r {
            Ok(c) => {
                &&& self.pos < self.feed.text.len()
                &&& c == text::char_at(self.feed.text, self.pos)
                &&& after.pos == self.pos + text::width_at(self.feed.text, self.pos)
                &&& after.back == Some(self.pos)
            },
            Err(_) => after.pos == self.pos && after.back == self.back,
        }
        &&& if self.pos < self.fetched {
            r is Ok && after.holds_same(self)
        } else if self.end is Some {
            r == Err::<char, StreamError>(self.end->0) && after.holds_same(self)
        } else {
            &&& is_least(after.base, self.marks, self.forgettable())
            &&& self.base <= after.base
            &&& if self.full() {
                &&& r == Err::<char, StreamError>(StreamError::BufferFull)
                &&& after.fetched == self.fetched
                &&& after.end is None
            } else {
                self.asks(after, r)
            }
        }
    }

    /// Whether asking the source for more text may lead to the state `after` and the answer `r`.
    pub open spec fn asks(self, after: StreamState, r: Result<char, StreamError>) -> bool {
        match r {
            Ok(_) => after.end is None && self.fetched < after.fetched,
            Err(error) => {
                &&& after.fetched == self.fetched
                &&& match error {
                    StreamError::EndOfInput => match after.end {
                        Some(end) => end is EndOfInput,
                        None => self.feed.faulty && (self.feed.abrupt || self.fetched
                            == self.feed.text.len() && !self.feed.malformed),
                    },
                    StreamError::BufferFull => false,
                    StreamError::InputError(_) => self.feed.faulty && after.end is None,
                    StreamError::Utf8Error => after.end == Some(StreamError::Utf8Error),
                }
            },
        }
    }

    /// Whether going back to the checkpoint at `mark` turns the state into `after`: the character
    /// before it can be gone back to if the stream holds it.
    pub open spec fn resets(self, after: StreamState, mark: nat) -> bool {
        &&& after == StreamState { pos: mark, back: after.back, ..self.released(mark) }
        &&& after.back is Some <==> self.base < mark
        &&& after.fits()
    }
}

/// A reference to a range of bytes of a stream. The bytes stay accessible as long as the range and
/// the stream exist.
pub trait StreamerRange: Sized {
    /// The stream that the range belongs to.
    type Input;

    /// The position of the first byte of the range.
    spec fn start(&self) -> nat;

    /// The position after the last byte of the range.
    spec fn end(&self) -> nat;

    /// Whether `input` is the stream that the range was made by.
    spec fn belongs(&self, input: &Self::Input) -> bool;

    /// The bytes of the range.
    spec fn content(&self, input: &Self::Input) -> Seq<u8>;

    /// What becomes of the stream when the range is given back to it.
    spec fn given_back(&self, before: &Self::Input, after: &Self::Input) -> bool;

    /// Gives the range back to its stream, and returns its bytes.
    fn to_ref<'a>(self, input: &'a mut Self::Input) -> (bytes: &'a [u8])
        requires
            self.belongs(old(input)),
        ensures
            bytes@ == self.content(old(input)),
            self.given_back(old(input), final(input)),
    ;
}

/// A source of characters which can be gone back in.
pub trait Streamer: Sized + View<V = StreamState> {
    /// A position of the stream which can be gone back to, or which marks the beginning or the end
    /// of a range. The stream keeps its text from there on until the checkpoint is given back to
    /// it.
    type CheckPoint;

    /// A reference to a range of bytes of the stream.
    type Range: StreamerRange<Input = Self>;

    /// Whether the stream is well-formed.
    spec fn wf(&self) -> bool;

    /// The position of a checkpoint.
    spec fn place(checkpoint: &Self::CheckPoint) -> nat;

    /// A well-formed stream is somewhere in its text.
    proof fn lemma_wf(&self)
        requires
            self.wf(),
        ensures
            self@.fits(),
    ;

    /// A range of the stream is readable in it, and is the part of the text that it says. Giving it
    /// back gives its two checkpoints back.
    proof fn lemma_range(&self, range: Self::Range)
        requires
            self.wf(),
            range.start() <= range.end(),
            holds_both(self@.marks, range.start(), range.end()),
        ensures
            range.belongs(self),
            range.content(self) == self@.feed.text.subrange(
                range.start() as int,
                range.end() as int,
            ),
            forall|after: Self| #[trigger] range.given_back(self, &after) ==> {
                &&& after.wf()
                &&& after@ == self@.released(range.start()).released(range.end())
            },
    ;

    /// Returns the next character and moves past it.
    ///
    /// # Errors
    /// When the input encounters an error, when the buffer is full (even if the stream can be
    /// dynamically sized, it can be decided that it has a maximum size), or at the end of the
    /// input.
    fn next(&mut self) -> (r: Result<char, StreamError>)
        requires
            old(self).wf(),
        ensures
            final(self).wf(),
            old(self)@.reads(final(self)@, r),
    ;

    /// Returns the current position in number of bytes since the beginning of the input.
    fn position(&self) -> (at: u64)
        requires
            self.wf(),
        ensures
            at == self@.pos,
    ;

    /// Creates a checkpoint at the current position. The stream can go back to that position or get
    /// a range from that position until the checkpoint is given back.
    fn checkpoint(&mut self) -> (checkpoint: Self::CheckPoint)
        requires
            old(self).wf(),
        ensures
            final(self).wf(),
            Self::place(&checkpoint) == old(self)@.pos,
            final(self)@ == old(self)@.marked(),
    ;

    /// Gives a checkpoint back without going back to it.
    fn release(&mut self, checkpoint: Self::CheckPoint)
        requires
            old(self).wf(),
            old(self)@.marks.count(Self::place(&checkpoint)) > 0,
        ensures
            final(self).wf(),
            final(self)@ == old(self)@.released(Self::place(&checkpoint)),
    ;

    /// Gives a checkpoint back and goes back to its position.
    fn reset(&mut self, checkpoint: Self::CheckPoint)
        requires
            old(self).wf(),
            old(self)@.marks.count(Self::place(&checkpoint)) > 0,
        ensures
            final(self).wf(),
            old(self)@.resets(final(self)@, Self::place(&checkpoint)),
    ;

    /// Like `reset` with a checkpoint one character before, but can be way faster.
    /// It is always possible once after a `next`.
    fn before(&mut self)
        requires
            old(self).wf(),
            old(self)@.back is Some,
        ensures
            final(self).wf(),
            final(self)@ == old(self)@.stepped_back(),
    ;

    /// Makes a range from the first given checkpoint to the second given one.
    fn range_from_to_checkpoint(
        &mut self,
        from: Self::CheckPoint,
        to: Self::CheckPoint,
    ) -> (range: Self::Range)
        requires
            old(self).wf(),
            Self::place(&from) <= Self::place(&to),
            holds_both(old(self)@.marks, Self::place(&from), Self::place(&to)),
        ensures
            range.start() == Self::place(&from),
            range.end() == Self::place(&to),
            final(self).wf(),
            final(self)@ == old(self)@,
    ;

    /// Gives a range back without reading it.
    fn release_range(&mut self, range: Self::Range)
        requires
            old(self).wf(),
            holds_both(old(self)@.marks, range.start(), range.end()),
        ensures
            final(self).wf(),
            final(self)@ == old(self)@.released(range.start()).released(range.end()),
    ;

    /// Makes a range from the given checkpoint to the current position.
    fn range_from_checkpoint(&mut self, checkpoint: Self::CheckPoint) -> (range: Self::Range)
        requires
            old(self).wf(),
            Self::place(&checkpoint) <= old(self)@.pos,
            old(self)@.marks.count(Self::place(&checkpoint)) > 0,
        ensures
            range.start() == Self::place(&checkpoint),
            range.end() == old(self)@.pos,
            final(self).wf(),
            final(self)@ == old(self)@.marked(),
    {
        let to = self.checkpoint();
        self.range_from_to_checkpoint(checkpoint, to)
    }
}

/// Whether `marks` holds a checkpoint at `a` and another one at `b`.
pub open spec fn holds_both(marks: Multiset<nat>, a: nat, b: nat) -> bool {
    marks.count(a) > 0 && marks.remove(a).count(b) > 0
}

} // verus!
