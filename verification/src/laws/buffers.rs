//! What holds of the calls of streams.
use crate::checkpoints::{CheckPoint, CheckPointSet};
use crate::elastic_buffer::{ElasticBufferStreamer, Range};
use crate::errors::StreamError;
use crate::source::Source;
use crate::streamer::{StreamState, Streamer, StreamerRange};
use crate::text;
use vstd::multiset::Multiset;
use vstd::prelude::*;
use vstd::utf8::*;

verus! {

/// Whether a stream over `bytes` delivers `text`: the longest part from the beginning of the bytes
/// that is UTF-8.
pub open spec fn is_longest_text(text: Seq<u8>, bytes: Seq<u8>) -> bool {
    &&& text.len() <= bytes.len()
    &&& text == bytes.take(text.len() as int)
    &&& valid_utf8(text)
    &&& forall|n: nat|
        n <= bytes.len() && #[trigger] valid_utf8(bytes.take(n as int)) ==> n <= text.len()
}

/// Whether a stream over `read` with room for `room` bytes is in its first state.
pub open spec fn is_fresh<R: Source>(state: StreamState, read: R, room: nat) -> bool {
    &&& is_longest_text(state.feed.text, read.pending())
    &&& state.feed.malformed <==> read.pending().len() - state.feed.text.len() > 3
    &&& state.feed.chunk == 8192
    &&& state.feed.faulty == read.faulty()
    &&& state.feed.abrupt == read.abrupt()
    &&& state.feed.room == room
    &&& state.pos == 0
    &&& state.back is None
    &&& state.marks == Multiset::<nat>::empty()
    &&& state.base == 0
    &&& state.fetched == 0
    &&& state.end is None
    &&& state.answers.len() == 0
}

proof fn lemma_longest_text(bytes: Seq<u8>)
    ensures
        is_longest_text(text::valid_prefix(bytes), bytes),
{
    text::lemma_valid_len_bound(bytes);
    assert forall|n: nat|
        n <= bytes.len() && #[trigger] valid_utf8(bytes.take(n as int)) implies n
        <= text::valid_len(bytes) by {
        assert(bytes =~= bytes.take(n as int) + bytes.skip(n as int));
        text::lemma_valid_len_concat(bytes.take(n as int), bytes.skip(n as int));
    }
}

/// A stream with a maximum size that a buffer can have has room for exactly that many bytes.
pub proof fn law_maximum_size_is_the_room<R: Source>(
    read: R,
    max_size: usize,
    stream: ElasticBufferStreamer<R>,
)
    requires
        call_ensures(ElasticBufferStreamer::<R>::with_max_size, (read, max_size), stream),
        max_size <= usize::MAX / 8,
    ensures
        stream.wf(),
        stream.source() == read,
        is_fresh(stream@, read, max_size as nat),
{
    lemma_longest_text(read.pending());
    text::lemma_valid_len_bound(read.pending());
}

/// A stream without a maximum size has room for as many bytes as a buffer can have.
pub proof fn law_unlimited_has_all_room<R: Source>(read: R, stream: ElasticBufferStreamer<R>)
    requires
        call_ensures(ElasticBufferStreamer::<R>::unlimited, (read,), stream),
    ensures
        stream.wf(),
        stream.source() == read,
        is_fresh(stream@, read, (usize::MAX / 8) as nat),
{
    lemma_longest_text(read.pending());
    text::lemma_valid_len_bound(read.pending());
}

/// Whether the stream has to keep its text from `kept` on: a checkpoint is there, or it is where
/// the stream is, or one character before if that can be gone back to.
pub open spec fn must_keep(state: StreamState, kept: nat) -> bool {
    ||| state.marks.count(kept) > 0
    ||| kept == state.pos
    ||| state.back == Some(kept)
}

/// A stream with a maximum size refuses to go on exactly if the text that it holds was read, what
/// comes next is not known, and a chunk behind the text that it has to keep could exceed the
/// maximum size.
pub proof fn law_full_is_beyond_maximum_size<R: Source>(
    read: R,
    max_size: usize,
    first: ElasticBufferStreamer<R>,
    stream: &mut ElasticBufferStreamer<R>,
    r: Result<char, StreamError>,
)
    requires
        call_ensures(ElasticBufferStreamer::<R>::with_max_size, (read, max_size), first),
        max_size <= usize::MAX / 8,
        old(stream).wf(),
        old(stream)@.feed == first@.feed,
        call_ensures(ElasticBufferStreamer::<R>::next, (stream,), r),
    ensures
        r == Err::<char, StreamError>(StreamError::BufferFull) <==> {
            &&& old(stream)@.pos == old(stream)@.fetched
            &&& old(stream)@.end is None
            &&& exists|kept: nat| #[trigger]
                must_keep(old(stream)@, kept) && old(stream)@.pos - kept + 8192 > max_size
        },
        final(stream)@.fetched - final(stream)@.base <= max_size,
{
    old(stream).lemma_wf();
    law_maximum_size_is_the_room(read, max_size, first);
    law_next_gives_the_text(stream, r);
}

/// What the next character of a stream is, and when there is none.
///
/// The character is the one whose encoding follows in the text, and the stream moves past it. The
/// text that the stream holds is given without anything else changing. What is known to stop the
/// stream there does so again and again. Otherwise the stream forgets what it does not have to
/// keep. If there is no room for a chunk then, it is full, and otherwise its source decides: the
/// end of the input comes at the end of the text unless the source pretends that it is there,
/// malformed bytes come after the text, and any other failure comes from a source that may fail.
pub proof fn law_next_gives_the_text<S: Streamer>(stream: &mut S, r: Result<char, StreamError>)
    requires
        old(stream).wf(),
        call_ensures(S::next, (stream,), r),
    ensures
        final(stream).wf(),
        ({
            let (from, to) = (old(stream)@, final(stream)@);
            let text = from.feed.text;
            &&& to.feed == from.feed
            &&& to.marks == from.marks
            &&& to.answers == from.answers.push(r)
            &&& match r {
                Ok(c) => {
                    &&& from.pos < to.pos <= to.fetched <= text.len()
                    &&& text.subrange(from.pos as int, to.pos as int) == encode_utf8(seq![c])
                    &&& to.back == Some(from.pos)
                },
                Err(_) => to.pos == from.pos && to.back == from.back && to.fetched == from.fetched,
            }
            &&& from.pos < from.fetched ==> {
                &&& r is Ok
                &&& to.base == from.base
                &&& to.fetched == from.fetched
                &&& to.end == from.end
            }
            &&& from.pos == from.fetched && from.end is Some ==> {
                &&& r == Err::<char, StreamError>(from.end->0)
                &&& to.base == from.base
                &&& to.end == from.end
            }
            &&& from.pos == from.fetched && from.end is None ==> {
                &&& must_keep(from, to.base)
                &&& forall|kept: nat| #[trigger] must_keep(from, kept) ==> to.base <= kept
                &&& r == Err::<char, StreamError>(StreamError::BufferFull) <==> from.pos - to.base
                    + from.feed.chunk > from.feed.room
                &&& match r {
                    Ok(_) => to.end is None,
                    Err(StreamError::EndOfInput) => {
                        ||| to.end == Some(StreamError::EndOfInput)
                        ||| to.end is None && from.feed.faulty
                    },
                    Err(StreamError::Utf8Error) => to.end == Some(StreamError::Utf8Error),
                    Err(_) => to.end is None,
                }
            }
            &&& r == Err::<char, StreamError>(StreamError::BufferFull) ==> from.pos == from.fetched
                && from.end is None
            &&& r == Err::<char, StreamError>(StreamError::EndOfInput) && !from.feed.abrupt ==> {
                &&& from.pos == text.len()
                &&& !from.feed.malformed
            }
            &&& r == Err::<char, StreamError>(StreamError::Utf8Error) ==> {
                &&& from.feed.malformed
                &&& text.len() < from.pos + from.feed.chunk
            }
            &&& r matches Err(StreamError::InputError(_)) ==> from.feed.faulty
            &&& to.fetched - to.base <= from.feed.room
        }),
{
    old(stream).lemma_wf();
    let from = old(stream)@;
    let to = final(stream)@;
    if let Ok(c) = r {
        text::lemma_char_encoding(from.feed.text, from.pos);
        text::lemma_boundary_next(from.feed.text, from.pos);
    }
    if from.pos == from.fetched && from.end is None {
        if let Some(back) = from.back {
            text::lemma_boundary_next(from.feed.text, back);
        }
        assert(must_keep(from, to.base));
        assert(from.full() <==> from.pos - to.base + from.feed.chunk > from.feed.room) by {
            if to.base != from.forgettable() {
                assert(from.marks.count(to.base) > 0);
            }
        }
    }
}

/// The position of a stream is where it is in its text.
pub proof fn law_position_is_told<S: Streamer>(stream: &S, at: u64)
    requires
        call_ensures(S::position, (stream,), at),
    ensures
        at == stream@.pos,
{
}

/// A checkpoint is made where the stream is. The stream has one more there then, and nothing else
/// of it changes.
pub proof fn law_checkpoint_is_made_there<S: Streamer>(
    stream: &mut S,
    checkpoint: S::CheckPoint,
)
    requires
        call_ensures(S::checkpoint, (stream,), checkpoint),
    ensures
        final(stream).wf(),
        S::place(&checkpoint) == old(stream)@.pos,
        final(stream)@ == (StreamState { marks: final(stream)@.marks, ..old(stream)@ }),
        forall|mark: nat| #[trigger]
            final(stream)@.marks.count(mark) == old(stream)@.marks.count(mark) + (if mark
                == old(stream)@.pos {
                1nat
            } else {
                0nat
            }),
{
}

/// A checkpoint that is given back is gone, and nothing else of the stream changes.
pub proof fn law_release_takes_one_back<S: Streamer>(stream: &mut S, checkpoint: S::CheckPoint)
    requires
        call_ensures(S::release, (stream, checkpoint), ()),
        old(stream)@.marks.count(S::place(&checkpoint)) > 0,
    ensures
        final(stream).wf(),
        final(stream)@ == (StreamState { marks: final(stream)@.marks, ..old(stream)@ }),
        forall|mark: nat| #[trigger]
            final(stream)@.marks.count(mark) == old(stream)@.marks.count(mark) - (if mark
                == S::place(&checkpoint) {
                1int
            } else {
                0int
            }),
{
}

/// Going back to a checkpoint moves the stream there and gives the checkpoint back. The character
/// before can be gone back to exactly if the stream holds it. Nothing else of the stream changes.
pub proof fn law_reset_goes_back<S: Streamer>(stream: &mut S, checkpoint: S::CheckPoint)
    requires
        call_ensures(S::reset, (stream, checkpoint), ()),
        old(stream)@.marks.count(S::place(&checkpoint)) > 0,
    ensures
        final(stream).wf(),
        final(stream)@ == (StreamState {
            pos: S::place(&checkpoint),
            back: final(stream)@.back,
            marks: final(stream)@.marks,
            ..old(stream)@
        }),
        final(stream)@.back is Some <==> old(stream)@.base < S::place(&checkpoint),
        final(stream)@.back matches Some(back) ==> {
            let text = old(stream)@.feed.text;
            back < S::place(&checkpoint) && exists|c: char|
                text.subrange(back as int, S::place(&checkpoint) as int) == #[trigger] encode_utf8(
                    seq![c],
                )
        },
        forall|mark: nat| #[trigger]
            final(stream)@.marks.count(mark) == old(stream)@.marks.count(mark) - (if mark
                == S::place(&checkpoint) {
                1int
            } else {
                0int
            }),
{
    let text = old(stream)@.feed.text;
    if let Some(back) = final(stream)@.back {
        text::lemma_char_encoding(text, back);
        text::lemma_boundary_next(text, back);
    }
}

/// Going one character back moves the stream before the character whose encoding ends where it was.
/// It cannot be gone back further then. Nothing else of the stream changes.
pub proof fn law_before_goes_one_character_back<S: Streamer>(stream: &mut S)
    requires
        call_ensures(S::before, (stream,), ()),
        old(stream).wf(),
        old(stream)@.back is Some,
    ensures
        final(stream).wf(),
        final(stream)@ == (StreamState {
            pos: final(stream)@.pos,
            back: None,
            ..old(stream)@
        }),
        final(stream)@.pos < old(stream)@.pos,
        Some(final(stream)@.pos) == old(stream)@.back,
        exists|c: char|
            old(stream)@.feed.text.subrange(
                final(stream)@.pos as int,
                old(stream)@.pos as int,
            ) == #[trigger] encode_utf8(seq![c]),
{
    old(stream).lemma_wf();
    text::lemma_char_encoding(old(stream)@.feed.text, old(stream)@.back->0);
    text::lemma_boundary_next(old(stream)@.feed.text, old(stream)@.back->0);
}

/// A range lies between the two checkpoints that it is made of, and nothing of the stream changes.
pub proof fn law_range_lies_between_checkpoints<S: Streamer>(
    stream: &mut S,
    from: S::CheckPoint,
    to: S::CheckPoint,
    range: S::Range,
)
    requires
        call_ensures(S::range_from_to_checkpoint, (stream, from, to), range),
    ensures
        final(stream).wf(),
        range.start() == S::place(&from),
        range.end() == S::place(&to),
        final(stream)@ == old(stream)@,
{
}

/// A range from a checkpoint goes to where the stream is, where another checkpoint is made.
pub proof fn law_range_goes_to_position<S: Streamer>(
    stream: &mut S,
    from: S::CheckPoint,
    range: S::Range,
)
    requires
        call_ensures(S::range_from_checkpoint, (stream, from), range),
    ensures
        final(stream).wf(),
        range.start() == S::place(&from),
        range.end() == old(stream)@.pos,
        final(stream)@ == (StreamState {
            marks: old(stream)@.marks.insert(old(stream)@.pos),
            ..old(stream)@
        }),
{
}

/// A range that is given back gives back its two checkpoints, and nothing else of the stream
/// changes.
pub proof fn law_range_is_given_back<S: Streamer>(stream: &mut S, range: S::Range)
    requires
        call_ensures(S::release_range, (stream, range), ()),
    ensures
        final(stream).wf(),
        final(stream)@ == (StreamState {
            marks: old(stream)@.marks.remove(range.start()).remove(range.end()),
            ..old(stream)@
        }),
{
}

/// A range that is read gives the bytes of the text between its two checkpoints, which are given
/// back. Nothing else of the stream changes.
pub proof fn law_range_is_read<S: Streamer>(stream: &mut S, range: S::Range, bytes: &[u8])
    requires
        range_is_read(range, stream, bytes),
        old(stream).wf(),
        range.start() <= range.end(),
        old(stream)@.marks.count(range.start()) > 0,
        old(stream)@.marks.remove(range.start()).count(range.end()) > 0,
    ensures
        final(stream).wf(),
        bytes@ == old(stream)@.feed.text.subrange(range.start() as int, range.end() as int),
        final(stream)@ == (StreamState {
            marks: old(stream)@.marks.remove(range.start()).remove(range.end()),
            ..old(stream)@
        }),
{
    old(stream).lemma_range(range);
}

/// Whether `to_ref` may have been called and returned `bytes`.
pub open spec fn range_is_read<T: StreamerRange>(
    range: T,
    stream: &mut T::Input,
    bytes: &[u8],
) -> bool {
    call_ensures(T::to_ref, (range, stream), bytes)
}

/// How many bytes the buffer of a stream holds is how many there are between the ends of the text
/// that the stream holds: no more than it has room for.
pub proof fn law_buffer_length_is_told<R: Source>(stream: &ElasticBufferStreamer<R>, len: usize)
    requires
        call_ensures(ElasticBufferStreamer::<R>::buffer_len, (stream,), len),
    ensures
        len == stream@.fetched - stream@.base,
        len <= stream@.feed.room,
{
}

/// Whether a stream can go back is told.
pub proof fn law_going_back_is_told<R: Source>(stream: &ElasticBufferStreamer<R>, b: bool)
    requires
        call_ensures(ElasticBufferStreamer::<R>::can_go_back, (stream,), b),
    ensures
        b <==> stream@.back is Some,
{
}

/// A checkpoint that is made of another one is at the same place. The stream has one more there
/// then, and nothing else of it changes.
pub proof fn law_duplicate_is_made_there<R: Source>(
    stream: &mut ElasticBufferStreamer<R>,
    checkpoint: &CheckPoint,
    other: CheckPoint,
)
    requires
        call_ensures(ElasticBufferStreamer::<R>::duplicate, (stream, checkpoint), other),
    ensures
        final(stream).wf(),
        other.position() == checkpoint.position(),
        ElasticBufferStreamer::<R>::place(&other) == other.position(),
        final(stream)@ == (StreamState {
            marks: old(stream)@.marks.insert(checkpoint.position()),
            ..old(stream)@
        }),
{
}

/// The checkpoints of a range are where it begins and where it ends.
pub proof fn law_range_has_two_checkpoints<R: Source>(
    range: Range<R>,
    checkpoints: (CheckPoint, CheckPoint),
)
    requires
        call_ensures(Range::<R>::into_checkpoints, (range,), checkpoints),
    ensures
        checkpoints.0.position() == range.start(),
        checkpoints.1.position() == range.end(),
{
}

/// A checkpoint precedes another one if it is not after it.
pub proof fn law_checkpoints_are_ordered(a: &CheckPoint, b: &CheckPoint, r: bool)
    requires
        call_ensures(CheckPoint::precedes, (a, b), r),
    ensures
        r <==> a.position() <= b.position(),
{
}

/// A set of checkpoints holds those that were put in and not taken out, and tells the earliest of
/// them.
pub proof fn law_checkpoints_are_kept(
    empty: CheckPointSet,
    set: &mut CheckPointSet,
    position: u64,
    checkpoint: CheckPoint,
    other: &mut CheckPointSet,
    gone: CheckPoint,
    all: &CheckPointSet,
    least: Option<u64>,
)
    requires
        call_ensures(CheckPointSet::new, (), empty),
        call_ensures(CheckPointSet::insert, (set, position), checkpoint),
        call_ensures(CheckPointSet::remove, (other, gone), ()),
        old(other)@.count(gone.position()) > 0,
        call_ensures(CheckPointSet::min_checkpoint_position, (all,), least),
    ensures
        forall|mark: nat| #[trigger] empty@.count(mark) == 0,
        checkpoint.position() == position,
        forall|mark: nat| #[trigger]
            final(set)@.count(mark) == old(set)@.count(mark) + (if mark == position {
                1nat
            } else {
                0nat
            }),
        forall|mark: nat| #[trigger]
            final(other)@.count(mark) == old(other)@.count(mark) - (if mark == gone.position() {
                1int
            } else {
                0int
            }),
        least is None <==> forall|mark: nat| #[trigger] all@.count(mark) == 0,
        least matches Some(at) ==> {
            &&& all@.count(at as nat) > 0
            &&& forall|mark: nat| #[trigger] all@.count(mark) > 0 ==> at <= mark
        },
{
}

/// A stream over UTF-8 bytes, from a source that does not fail, with room for all of them and a
/// chunk, delivers exactly these bytes, and nothing stops it but their end.
pub proof fn law_sound_bytes_are_delivered<R: Source>(
    read: R,
    max_size: usize,
    stream: ElasticBufferStreamer<R>,
    unlimited: ElasticBufferStreamer<R>,
)
    requires
        valid_utf8(read.pending()),
        !read.faulty(),
        !read.abrupt(),
        read.pending().len() + 8192 <= max_size <= usize::MAX / 8,
        call_ensures(ElasticBufferStreamer::<R>::with_max_size, (read, max_size), stream),
        call_ensures(ElasticBufferStreamer::<R>::unlimited, (read,), unlimited),
    ensures
        stream@.feed.text == read.pending(),
        unlimited@.feed.text == read.pending(),
        stream@.feed.steady(),
        unlimited@.feed.steady(),
        forall|at: nat| #[trigger] stream@.feed.steady_at(at),
{
    text::lemma_valid_len_of_valid(read.pending());
}

/// A stream can be asked for its next character, for its position and for a checkpoint at any time,
/// go back if there is something to go back to, and make ranges of its checkpoints.
pub proof fn law_streams_can_be_asked<S: Streamer>(
    stream: &mut S,
    other: &S,
    checkpoint: S::CheckPoint,
    end: S::CheckPoint,
    range: S::Range,
)
    requires
        old(stream).wf(),
        other.wf(),
    ensures
        call_requires(S::next, (stream,)),
        call_requires(S::position, (other,)),
        call_requires(S::checkpoint, (stream,)),
        old(stream)@.back is Some ==> call_requires(S::before, (stream,)),
        old(stream)@.marks.count(S::place(&checkpoint)) > 0 ==> {
            &&& call_requires(S::release, (stream, checkpoint))
            &&& call_requires(S::reset, (stream, checkpoint))
            &&& S::place(&checkpoint) <= old(stream)@.pos ==> call_requires(
                S::range_from_checkpoint,
                (stream, checkpoint),
            )
            &&& S::place(&checkpoint) <= S::place(&end) && old(stream)@.marks.remove(
                S::place(&checkpoint),
            ).count(S::place(&end)) > 0 ==> call_requires(
                S::range_from_to_checkpoint,
                (stream, checkpoint, end),
            )
        },
        old(stream)@.marks.count(range.start()) > 0 && old(stream)@.marks.remove(
            range.start(),
        ).count(range.end()) > 0 ==> call_requires(S::release_range, (stream, range)),
{
}

/// The buffer of a stream can be asked about at any time, and a checkpoint be made of another one
/// that was not given back.
pub proof fn law_buffers_can_be_asked<R: Source>(
    stream: &mut ElasticBufferStreamer<R>,
    other: &ElasticBufferStreamer<R>,
    checkpoint: &CheckPoint,
)
    requires
        old(stream).wf(),
        other.wf(),
    ensures
        call_requires(ElasticBufferStreamer::<R>::buffer_len, (other,)),
        call_requires(ElasticBufferStreamer::<R>::can_go_back, (other,)),
        old(stream)@.marks.count(checkpoint.position()) > 0 ==> call_requires(
            ElasticBufferStreamer::<R>::duplicate,
            (stream, checkpoint),
        ),
{
}

/// A stream asks its source only when it has given all the text that it holds and does not know
/// what stops it there, and only if there is room for a chunk.
pub proof fn law_source_is_asked_only_when_needed<R: Source>(
    stream: &mut ElasticBufferStreamer<R>,
    r: Result<char, StreamError>,
)
    requires
        old(stream).wf(),
        call_ensures(ElasticBufferStreamer::<R>::next, (stream,), r),
    ensures
        old(stream)@.pos < old(stream)@.fetched || old(stream)@.end is Some || r == Err::<
            char,
            StreamError,
        >(StreamError::BufferFull) ==> final(stream).source() == old(stream).source(),
        old(stream)@.pos == old(stream)@.fetched && old(stream)@.end is None ==> {
            &&& old(stream)@.base <= final(stream)@.base <= old(stream)@.pos
            &&& old(stream).fills(
                final(stream),
                match r {
                    Ok(_) => Ok(()),
                    Err(error) => Err(error),
                },
            )
        },
{
    old(stream).lemma_wf();
}

/// The text that a stream holds is in its buffer.
pub proof fn law_buffer_holds_the_text<R: Source>(stream: ElasticBufferStreamer<R>)
    requires
        stream.wf(),
    ensures
        stream@.base <= stream@.pos <= stream@.fetched <= stream@.feed.text.len(),
        stream.buffered() == stream@.feed.text.subrange(
            stream@.base as int,
            stream@.fetched as int,
        ),
{
    stream.law_buffer_is_window();
}

/// A stream can be made over any source whose bytes can be counted.
pub proof fn law_streams_can_be_made<R: Source>(read: R, max_size: usize)
    requires
        read.pending().len() <= u64::MAX,
    ensures
        call_requires(ElasticBufferStreamer::<R>::unlimited, (read,)),
        call_requires(ElasticBufferStreamer::<R>::with_max_size, (read, max_size)),
{
}

} // verus!
