//! What holds of streams.
use crate::decode::MAX_INCOMPLETE;
use crate::elastic_buffer;
use crate::elastic_buffer::{ElasticBufferStreamer, CHUNK_SIZE};
use crate::errors::StreamError;
use crate::laws::texts;
use crate::source;
use crate::source::Source;
use crate::streamer;
use crate::streamer::{Feed, StreamState, Streamer, StreamerRange};
use crate::text;
use vstd::prelude::*;
use vstd::utf8::*;

verus! {

/// Whether reading the characters `chars` one after the other may turn `states[0]` into the other
/// states.
pub open spec fn reads_all(states: Seq<StreamState>, chars: Seq<char>) -> bool {
    &&& states.len() == chars.len() + 1
    &&& forall|i: int|
        0 <= i < chars.len() ==> (#[trigger] states[i]).reads(states[i + 1], Ok(chars[i]))
}

/// Characters that are read one after the other are what the text holds between the positions
/// before the first one and after the last one, and the checkpoints stay the same.
pub proof fn law_reading_spells_text(states: Seq<StreamState>, chars: Seq<char>)
    requires
        reads_all(states, chars),
        states[0].fits(),
    ensures
        text::spells(states[0].feed.text, states[0].pos, states.last().pos, chars),
        text::is_boundary(states[0].feed.text, states.last().pos),
        states.last().feed == states[0].feed,
        states.last().marks == states[0].marks,
{
    let n = chars.len() as int;
    lemma_constant(states, chars, n);
    lemma_fits(states, chars, n);
    lemma_spells(states, chars, n);
    assert(chars.take(n) =~= chars);
}

proof fn lemma_spells(states: Seq<StreamState>, chars: Seq<char>, i: int)
    requires
        reads_all(states, chars),
        states[0].fits(),
        0 <= i <= chars.len(),
    ensures
        text::spells(states[0].feed.text, states[0].pos, states[i].pos, chars.take(i)),
    decreases i,
{
    let text = states[0].feed.text;
    let from = states[0].pos;
    if i == 0 {
        assert(chars.take(0) =~= Seq::<char>::empty());
        assert(text.subrange(from as int, from as int) =~= encode_utf8(chars.take(0)));
    } else {
        lemma_spells(states, chars, i - 1);
        lemma_constant(states, chars, i - 1);
        lemma_fits(states, chars, i - 1);
        assert(states[i - 1].reads(states[i], Ok(chars[i - 1])));
        text::lemma_spells_push(text, from, states[i - 1].pos, chars.take(i - 1));
        assert(chars.take(i - 1).push(chars[i - 1]) =~= chars.take(i));
    }
}

/// A stream over UTF-8 bytes that is read from its beginning to its end gives the characters of
/// which the bytes are the encoding.
pub proof fn law_reading_all_decodes(
    bytes: Seq<u8>,
    faulty: bool,
    max_size: Option<usize>,
    states: Seq<StreamState>,
    chars: Seq<char>,
    end: StreamState,
)
    requires
        valid_utf8(bytes),
        states.len() > 0,
        states[0].feed == elastic_buffer::feed_of(bytes, faulty, false, max_size),
        states[0].pos == 0,
        states[0].fits(),
        reads_all(states, chars),
        states.last().reads(end, Err(StreamError::EndOfInput)),
    ensures
        encode_utf8(chars) == bytes,
        chars == decode_utf8(bytes),
{
    text::lemma_valid_len_of_valid(bytes);
    assert(bytes.take(0) =~= Seq::<u8>::empty());
    law_reading_spells_text(states, chars);
    lemma_fits(states, chars, chars.len() as int);
    assert(bytes.subrange(0, bytes.len() as int) =~= bytes);
    encode_utf8_decode_utf8(chars);
}

/// A stream over UTF-8 bytes that fit in its buffer, from a source that does not fail, fails only
/// at the end of the bytes.
pub proof fn law_sound_input_is_steady(bytes: Seq<u8>, max_size: Option<usize>)
    requires
        valid_utf8(bytes),
        bytes.len() + CHUNK_SIZE <= elastic_buffer::room_of(max_size),
    ensures
        elastic_buffer::feed_of(bytes, false, false, max_size).steady(),
        elastic_buffer::feed_of(bytes, false, false, max_size).text == bytes,
{
    text::lemma_valid_len_of_valid(bytes);
}

/// Nothing stops a stream but the end of its text if its source does not fail, its text and a chunk
/// fit in it, and no malformed bytes follow its text, or none within a chunk.
pub proof fn law_steady_streams_have_nothing_to_stop_them(feed: Feed, at: nat)
    ensures
        feed.steady() <==> {
            &&& !feed.faulty && !feed.abrupt && !feed.malformed
            &&& feed.text.len() + feed.chunk <= feed.room
        },
        feed.steady_at(at) <==> {
            &&& !feed.faulty && !feed.abrupt
            &&& !feed.malformed || at + feed.chunk <= feed.text.len()
            &&& feed.text.len() + feed.chunk <= feed.room
        },
{
}

/// A stream that nothing stops but the end of its text gives the same answer each time that it is
/// asked at the same position.
pub proof fn law_reading_is_repeatable(
    state: StreamState,
    other: StreamState,
    after: StreamState,
    after_other: StreamState,
    r: Result<char, StreamError>,
    r_other: Result<char, StreamError>,
)
    requires
        state.fits(),
        other.fits(),
        state.feed.steady_at(state.pos),
        other.feed == state.feed,
        other.pos == state.pos,
        state.reads(after, r),
        other.reads(after_other, r_other),
    ensures
        r_other == r,
        after_other.pos == after.pos,
{
}

/// Of any stream, two characters that are read at the same position are the same.
pub proof fn law_same_position_same_char(
    state: StreamState,
    other: StreamState,
    after: StreamState,
    after_other: StreamState,
    c: char,
    d: char,
)
    requires
        other.feed == state.feed,
        other.pos == state.pos,
        state.reads(after, Ok(c)),
        other.reads(after_other, Ok(d)),
    ensures
        d == c,
        after_other.pos == after.pos,
{
}

/// Going one character back undoes the reading of a character.
pub proof fn law_before_undoes_next(state: StreamState, after: StreamState, c: char)
    requires
        state.reads(after, Ok(c)),
    ensures
        after.back is Some,
        after.stepped_back() == (StreamState {
            back: None,
            base: after.base,
            fetched: after.fetched,
            end: after.end,
            answers: state.answers.push(Ok(c)),
            ..state
        }),
{
}

/// A stream is full exactly when it has given all the text that it holds, does not know what stops
/// it there, and has no room for another chunk behind the text that can be gone back to. It says so
/// however often it is asked, until a checkpoint is given back.
pub proof fn law_full_stays_full(
    state: StreamState,
    after: StreamState,
    again: StreamState,
    r: Result<char, StreamError>,
    r_again: Result<char, StreamError>,
)
    requires
        state.fits(),
        state.reads(after, r),
        after.reads(again, r_again),
    ensures
        r == Err::<char, StreamError>(StreamError::BufferFull) <==> {
            &&& state.pos == state.fetched
            &&& state.end is None
            &&& state.full()
        },
        r == Err::<char, StreamError>(StreamError::BufferFull) ==> r_again == r,
{
}

/// What a stream has room for depends on its checkpoints: with one more, it is full at least where
/// it was full without.
pub proof fn law_checkpoints_take_room(state: StreamState, mark: nat)
    requires
        state.full(),
    ensures
        (StreamState { marks: state.marks.insert(mark), ..state }).full(),
{
    let other = StreamState { marks: state.marks.insert(mark), ..state };
    if !(state.pos + state.feed.chunk > state.feed.room + state.forgettable()) {
        let m = choose|m: nat| #[trigger]
            state.marks.count(m) > 0 && state.pos + state.feed.chunk > state.feed.room + m;
        assert(other.marks.count(m) > 0);
    }
}

/// A stream forgets text only when it has to read, and then exactly what is before the earliest
/// checkpoint and before the last character that was read.
pub proof fn law_forgets_what_nothing_needs(
    state: StreamState,
    after: StreamState,
    r: Result<char, StreamError>,
)
    requires
        state.fits(),
        state.reads(after, r),
    ensures
        state.base <= after.base,
        state.pos < state.fetched || state.end is Some ==> after.base == state.base,
        state.pos == state.fetched && state.end is None ==> streamer::is_least(
            after.base,
            state.marks,
            state.forgettable(),
        ),
        after.fetched - after.base <= state.feed.room,
{
}

/// A stream whose text fits is never full.
pub proof fn law_roomy_stream_is_never_full(state: StreamState)
    requires
        state.fits(),
        !state.feed.cramped(),
    ensures
        !state.full(),
{
}

/// Going back to a checkpoint, whatever was read in between, gives the characters that follow the
/// checkpoint again, and leaves the other checkpoints as they are.
pub proof fn law_reset_rereads(
    state: StreamState,
    states: Seq<StreamState>,
    chars: Seq<char>,
    back: StreamState,
    again: Seq<StreamState>,
    chars_again: Seq<char>,
)
    requires
        state.fits(),
        reads_all(states, chars),
        states[0] == state.marked(),
        states.last().resets(back, state.pos),
        reads_all(again, chars_again),
        again[0] == back,
        chars_again.len() <= chars.len(),
    ensures
        back.pos == state.pos,
        back.marks == state.marks,
        back.back is Some <==> states.last().base < back.pos,
        back.back_fits(),
        chars_again == chars.take(chars_again.len() as int),
{
    assert forall|i: int| 0 <= i <= chars.len() implies (#[trigger] states[i]).feed == state.feed
        && states[i].marks == state.marked().marks by {
        lemma_constant(states, chars, i);
    }
    assert(back.marks =~= state.marks);
    assert forall|i: int| 0 <= i <= chars_again.len() implies (#[trigger] again[i]).feed
        == state.feed && again[i].pos == states[i].pos by {
        lemma_in_step(states, chars, again, chars_again, i);
    }
    assert forall|i: int| 0 <= i < chars_again.len() implies chars_again[i]
        == #[trigger] chars[i] by {
        assert(states[i].reads(states[i + 1], Ok(chars[i])));
        assert(again[i].reads(again[i + 1], Ok(chars_again[i])));
    }
    assert(chars_again =~= chars.take(chars_again.len() as int));
}

/// A range has the same bytes whenever it is read, as long as it was not given back: those of the
/// text between its positions.
pub proof fn law_range_is_stable<S: Streamer>(stream: S, later: S, range: S::Range)
    requires
        stream.wf(),
        later.wf(),
        later@.feed == stream@.feed,
        range.start() <= range.end(),
        streamer::holds_both(stream@.marks, range.start(), range.end()),
        streamer::holds_both(later@.marks, range.start(), range.end()),
    ensures
        range.belongs(&stream),
        range.belongs(&later),
        range.content(&later) == range.content(&stream),
        range.content(&stream) == stream@.feed.text.subrange(
            range.start() as int,
            range.end() as int,
        ),
{
    stream.lemma_range(range);
    later.lemma_range(range);
}

/// Bytes that are read go behind the buffer up to the last character that they complete, and the
/// bytes of the character that they begin are held back: nothing is lost, and nothing but
/// characters is in the buffer.
pub proof fn law_chunk_is_kept<R: Source>(
    stream: ElasticBufferStreamer<R>,
    buffered: Seq<u8>,
    held: Seq<u8>,
    pending: Seq<u8>,
    n: usize,
)
    requires
        valid_utf8(buffered),
        stream.takes(buffered, held, pending, Ok(n)),
        !stream.broken(),
    ensures
        stream.buffered() + stream.held_back() == buffered + held + pending.take(n as int),
        valid_utf8(stream.buffered()),
        text::valid_len(stream.held_back()) == 0,
        stream.held_back().len() <= MAX_INCOMPLETE,
{
    let bytes = held + pending.take(n as int);
    let len = text::valid_len(bytes) as int;
    text::lemma_valid_len_bound(bytes);
    text::lemma_valid_len_rest(bytes);
    valid_utf8_concat(buffered, bytes.take(len));
    assert(stream.buffered() + stream.held_back() =~= buffered + held + pending.take(n as int));
}

/// Whether a source that goes through `states` is interrupted each time that it is asked.
pub open spec fn is_interrupted<R: Source>(states: Seq<R>, request: nat) -> bool {
    &&& states.len() > 0
    &&& forall|i: int, j: int|
        0 <= i < states.len() - 1 && j == i + 1 ==> (#[trigger] states[i]).answers(
            #[trigger] &states[j],
            request,
            Err(std::io::ErrorKind::Interrupted),
        )
}

/// A source that is interrupted is asked for the same again until it is not, and its answer is the
/// one that it gives then.
pub proof fn law_interrupted_source_is_asked_again<R: Source>(
    source: R,
    after: R,
    request: nat,
    r: Result<usize, std::io::ErrorKind>,
)
    requires
        source::answers_at_last(source, after, request, r),
    ensures
        r != Err::<usize, std::io::ErrorKind>(std::io::ErrorKind::Interrupted),
        exists|states: Seq<R>|
            {
                &&& #[trigger] is_interrupted(states, request)
                &&& states[0] == source
                &&& states.last().answers(&after, request, r)
            },
{
    let retries = choose|retries: nat|
        source::answers_after(source, after, request, r, retries);
    let states = lemma_interruptions(source, after, request, r, retries);
    assert(is_interrupted(states, request));
}

proof fn lemma_interruptions<R: Source>(
    source: R,
    after: R,
    request: nat,
    r: Result<usize, std::io::ErrorKind>,
    retries: nat,
) -> (states: Seq<R>)
    requires
        source::answers_after(source, after, request, r, retries),
    ensures
        is_interrupted(states, request),
        states[0] == source,
        states.last().answers(&after, request, r),
    decreases retries,
{
    if retries == 0 {
        seq![source]
    } else {
        let next = choose|next: R|
            {
                &&& #[trigger] source.answers(
                    &next,
                    request,
                    Err(std::io::ErrorKind::Interrupted),
                )
                &&& source::answers_after(next, after, request, r, (retries - 1) as nat)
            };
        let rest = lemma_interruptions(next, after, request, r, (retries - 1) as nat);
        let states = seq![source] + rest;
        assert forall|i: int, j: int|
            0 <= i < states.len() - 1 && j == i + 1 implies (#[trigger] states[i]).answers(
            #[trigger] &states[j],
            request,
            Err(std::io::ErrorKind::Interrupted),
        ) by {
            if i > 0 {
                assert(rest[i - 1].answers(
                    &rest[j - 1],
                    request,
                    Err(std::io::ErrorKind::Interrupted),
                ));
            }
        }
        states
    }
}

/// An interruption of the source is never reported.
pub proof fn law_interruptions_are_not_reported<R: Source>(
    stream: ElasticBufferStreamer<R>,
    after: ElasticBufferStreamer<R>,
    r: Result<(), StreamError>,
)
    requires
        stream.fills(&after, r),
    ensures
        r != Err::<(), StreamError>(StreamError::InputError(std::io::ErrorKind::Interrupted)),
{
}

/// A stream that has to read asks its source for a chunk, or for what there is room for behind the
/// text that it keeps and the bytes of a character of which the end was not read yet. It is not
/// before the source has delivered the end of a character, reported its end or failed that it stops
/// asking. What the source delivered last is then in the buffer up to the last character that it
/// completes, and held back from there on, unless it is malformed.
pub proof fn law_source_is_asked_for_a_chunk<R: Source>(
    stream: ElasticBufferStreamer<R>,
    after: ElasticBufferStreamer<R>,
    r: Result<(), StreamError>,
)
    requires
        stream.fills(&after, r),
        stream.base() <= after.base() <= stream.base() + stream.buffered().len(),
        r != Err::<(), StreamError>(StreamError::BufferFull),
    ensures
        exists|
            last: R,
            request: nat,
            answer: Result<usize, std::io::ErrorKind>,
            held: Seq<u8>,
        |
            {
                let kept = stream.buffered().skip(after.base() - stream.base());
                let bytes = held + last.pending().take(answer->Ok_0 as int);
                &&& #[trigger] source::answers_at_last(last, after.source(), request, answer)
                &&& #[trigger] stream.held_back().is_prefix_of(held)
                &&& held.len() <= 3
                &&& request <= 8192
                &&& request < 8192 ==> kept.len() + held.len() + request == stream.room()
                &&& match answer {
                    Ok(n) => if n == 0 {
                        &&& r == Err::<(), StreamError>(StreamError::EndOfInput)
                        &&& after.ended()
                        &&& after.buffered() == kept
                    } else if exists|m: int|
                        0 <= m && bytes.len() - 3 <= m <= bytes.len() && #[trigger] valid_utf8(
                            bytes.take(m),
                        ) {
                        &&& r == Ok::<(), StreamError>(())
                        &&& !after.ended() && !after.broken()
                        &&& after.buffered() + after.held_back() == kept + bytes
                        &&& after.held_back().len() <= 3
                        &&& after.source().pending() == last.pending().skip(n as int)
                    } else {
                        &&& r == Err::<(), StreamError>(StreamError::Utf8Error)
                        &&& after.broken()
                        &&& after.buffered() == kept
                    },
                    Err(kind) => {
                        &&& r is Err
                        &&& kind is UnexpectedEof ==> r->Err_0 is EndOfInput
                        &&& kind !is UnexpectedEof ==> r->Err_0 == StreamError::InputError(kind)
                        &&& !after.ended() && !after.broken()
                        &&& after.buffered() == kept
                        &&& after.held_back() == held
                        &&& after.source().pending() == last.pending()
                    },
                }
            },
{
    let kept = stream.buffered().skip(after.base() - stream.base());
    let left = (stream.room() - kept.len()) as nat;
    let (last, request, answer, more, n) = choose|
        last: R,
        request: nat,
        answer: Result<usize, std::io::ErrorKind>,
        more: Seq<u8>,
        n: nat,
    |
        {
            let held = stream.held_back() + more;
            &&& #[trigger] elastic_buffer::trickles(
                stream.source(),
                last,
                left,
                stream.held_back().len(),
                more,
                n,
            )
            &&& held.len() <= MAX_INCOMPLETE
            &&& text::valid_len(held) == 0
            &&& request == elastic_buffer::request_of(left, held.len())
            &&& #[trigger] source::answers_at_last(last, after.source(), request, answer)
            &&& answer matches Ok(size) ==> size <= request
            &&& after.takes(kept, held, last.pending(), answer)
            &&& r == if answer == Ok::<usize, std::io::ErrorKind>(0) {
                Err(StreamError::EndOfInput)
            } else {
                elastic_buffer::read_result(held, last.pending(), answer)
            }
        };
    let held = stream.held_back() + more;
    let bytes = held + last.pending().take(answer->Ok_0 as int);
    text::lemma_valid_len_bound(bytes);
    assert(stream.held_back().is_prefix_of(held));
    assert(source::answers_at_last(last, after.source(), request, answer));
    if let Ok(size) = answer {
        if size == 0 {
            assert(bytes =~= held);
            assert(kept + bytes.take(0) =~= kept);
        } else if elastic_buffer::overflows(bytes) {
            assert forall|m: int|
                0 <= m && bytes.len() - 3 <= m <= bytes.len() implies !#[trigger] valid_utf8(
                bytes.take(m),
            ) by {
                if valid_utf8(bytes.take(m)) {
                    text::lemma_valid_len_max(bytes, m as nat);
                }
            }
        } else {
            let len = text::valid_len(bytes) as int;
            assert(valid_utf8(bytes.take(len)));
            assert(kept + bytes.take(len) + bytes.skip(len) =~= kept + bytes);
        }
    }
}

/// Bytes in memory are delivered in order, as many as are asked for or all that are left, and there
/// are no others.
pub proof fn law_slice_delivers_its_bytes<'a>(
    slice: &mut &'a [u8],
    buf: &mut [u8],
    r: Result<usize, std::io::ErrorKind>,
)
    requires
        call_ensures(<&'a [u8] as Source>::read, (slice, buf), r),
    ensures
        r matches Ok(n) && {
            &&& n <= old(slice)@.len()
            &&& n == old(slice)@.len() || n == old(buf)@.len()
            &&& n <= old(buf)@.len()
            &&& final(buf)@.len() == old(buf)@.len()
            &&& final(buf)@.take(n as int) == old(slice)@.take(n as int)
            &&& final(slice)@ == old(slice)@.skip(n as int)
        },
{
}

/// The bytes that a slice delivers when it is asked for a chunk.
pub open spec fn first_chunk(bytes: Seq<u8>) -> Seq<u8> {
    if bytes.len() < CHUNK_SIZE {
        bytes
    } else {
        bytes.take(CHUNK_SIZE as int)
    }
}

/// A stream over a slice that has to read, with room for a chunk in its buffer, reads one chunk.
/// The characters that the chunk completes are then in the buffer.
pub proof fn law_slice_is_read_in_chunks<'a>(
    stream: ElasticBufferStreamer<&'a [u8]>,
    after: ElasticBufferStreamer<&'a [u8]>,
    r: Result<(), StreamError>,
)
    requires
        stream.sound(),
        stream.exhausted(),
        stream.held_back().len() == 0,
        stream.base() <= after.base() <= stream.cursor(),
        stream.cursor() - after.base() + CHUNK_SIZE <= stream.room(),
        stream.fills(&after, r),
        valid_first_scalar(first_chunk(stream.source()@)),
    ensures
        ({
            let chunk = first_chunk(stream.source()@);
            let kept = stream.buffered().skip(after.base() - stream.base());
            if elastic_buffer::overflows(chunk) {
                &&& r == Err::<(), StreamError>(StreamError::Utf8Error)
                &&& after.buffered() == kept
            } else {
                &&& r == Ok::<(), StreamError>(())
                &&& after.buffered() == kept + text::valid_prefix(chunk)
                &&& after.held_back() == chunk.skip(text::valid_len(chunk) as int)
                &&& after.source()@ == stream.source()@.skip(chunk.len() as int)
                &&& !after.ended()
            }
        }),
{
    let bytes = stream.source()@;
    let chunk = first_chunk(bytes);
    let kept = stream.buffered().skip(after.base() - stream.base());
    let left = (stream.room() - kept.len()) as nat;
    let (last, request, answer, more, n) = choose|
        last: &'a [u8],
        request: nat,
        answer: Result<usize, std::io::ErrorKind>,
        more: Seq<u8>,
        n: nat,
    |
        {
            let held = stream.held_back() + more;
            &&& #[trigger] elastic_buffer::trickles(
                stream.source(),
                last,
                left,
                stream.held_back().len(),
                more,
                n,
            )
            &&& held.len() <= MAX_INCOMPLETE
            &&& text::valid_len(held) == 0
            &&& request == elastic_buffer::request_of(left, held.len())
            &&& #[trigger] source::answers_at_last(last, after.source(), request, answer)
            &&& answer matches Ok(size) ==> size <= request
            &&& after.takes(kept, held, last.pending(), answer)
            &&& r == if answer == Ok::<usize, std::io::ErrorKind>(0) {
                Err(StreamError::EndOfInput)
            } else {
                elastic_buffer::read_result(held, last.pending(), answer)
            }
        };
    assert(stream.held_back() + more =~= more);
    lemma_slice_trickles(stream.source(), last, left, more, n);
    lemma_slice_answers(last, after.source(), request, answer);
    if n > 0 {
        assert(more =~= chunk);
    }
    assert(last@ =~= bytes);
    assert(more + bytes.take(chunk.len() as int) =~= chunk);
    assert(chunk.take(text::valid_len(chunk) as int) == text::valid_prefix(chunk));
}

/// Like `law_slice_is_read_in_chunks`, in bytes: the stream gains the longest part from the
/// beginning of the next chunk that is UTF-8. If more than three bytes of the chunk are left then,
/// they are malformed.
pub proof fn law_memory_is_read_in_chunks<'a>(
    stream: ElasticBufferStreamer<&'a [u8]>,
    after: ElasticBufferStreamer<&'a [u8]>,
    r: Result<(), StreamError>,
    chunk: Seq<u8>,
    n: nat,
)
    requires
        stream.sound(),
        stream.exhausted(),
        stream.held_back().len() == 0,
        stream.base() <= after.base() <= stream.cursor(),
        stream.cursor() - after.base() + 8192 <= stream.room(),
        stream.fills(&after, r),
        chunk == if stream.source()@.len() < 8192 {
            stream.source()@
        } else {
            stream.source()@.take(8192)
        },
        valid_first_scalar(chunk),
    ensures
        ({
            let gained = after.buffered().len() - (stream.cursor() - after.base());
            &&& r is Ok ==> {
                &&& 0 < gained <= chunk.len() <= gained + 3
                &&& valid_utf8(chunk.take(gained))
                &&& n <= chunk.len() && valid_utf8(chunk.take(n as int)) ==> n <= gained
                &&& after.source()@ == stream.source()@.skip(chunk.len() as int)
            }
            &&& r is Err ==> {
                &&& r == Err::<(), StreamError>(StreamError::Utf8Error)
                &&& gained == 0
                &&& n <= chunk.len() && valid_utf8(chunk.take(n as int)) ==> n + 3 < chunk.len()
            }
        }),
{
    law_slice_is_read_in_chunks(stream, after, r);
    texts::law_valid_prefix_is_longest(chunk, n);
}

proof fn lemma_slice_answers<'a>(
    source: &'a [u8],
    after: &'a [u8],
    request: nat,
    answer: Result<usize, std::io::ErrorKind>,
)
    requires
        source::answers_at_last(source, after, request, answer),
    ensures
        source.answers(&after, request, answer),
{
    let retries = choose|retries: nat|
        source::answers_after(source, after, request, answer, retries);
    if retries > 0 {
        let next = choose|next: &'a [u8]|
            {
                &&& #[trigger] source.answers(
                    &next,
                    request,
                    Err(std::io::ErrorKind::Interrupted),
                )
                &&& source::answers_after(next, after, request, answer, (retries - 1) as nat)
            };
        assert(source.answers(&next, request, Err(std::io::ErrorKind::Interrupted)));
    }
}

proof fn lemma_slice_trickles<'a>(
    source: &'a [u8],
    after: &'a [u8],
    left: nat,
    more: Seq<u8>,
    n: nat,
)
    requires
        elastic_buffer::trickles(source, after, left, 0, more, n),
        left >= CHUNK_SIZE,
    ensures
        more.len() <= source@.len(),
        more == source@.take(more.len() as int),
        after@ == source@.skip(more.len() as int),
        n == 0 ==> more.len() == 0,
        n > 0 ==> more.len() >= first_chunk(source@).len(),
    decreases n,
{
    if n == 0 {
        assert(more =~= source@.take(0));
        assert(after@ =~= source@.skip(0));
    } else {
        let (before, size, request) = choose|before: &'a [u8], size: usize, request: nat|
            {
                let known = more.len() - size;
                &&& 0 < size <= more.len()
                &&& request == elastic_buffer::request_of(left, (0 + known) as nat)
                &&& elastic_buffer::trickles(
                    source,
                    before,
                    left,
                    0,
                    more.take(known),
                    (n - 1) as nat,
                )
                &&& more.skip(known) == before.pending().take(size as int)
                &&& #[trigger] source::answers_at_last(before, after, request, Ok(size))
            };
        let known = more.len() - size;
        lemma_slice_trickles(source, before, left, more.take(known), (n - 1) as nat);
        lemma_slice_answers(before, after, request, Ok(size));
        assert(more =~= more.take(known) + more.skip(known));
        assert(more =~= source@.take(more.len() as int));
        assert(after@ =~= source@.skip(more.len() as int));
    }
}

proof fn lemma_fits(states: Seq<StreamState>, chars: Seq<char>, i: int)
    requires
        reads_all(states, chars),
        states[0].fits(),
        0 <= i <= chars.len(),
    ensures
        states[i].fits(),
{
    if i > 0 {
        assert(states[i - 1].reads(states[i], Ok(chars[i - 1])));
    }
}

proof fn lemma_constant(states: Seq<StreamState>, chars: Seq<char>, i: int)
    requires
        reads_all(states, chars),
        0 <= i <= chars.len(),
    ensures
        states[i].feed == states[0].feed,
        states[i].marks == states[0].marks,
    decreases i,
{
    if i > 0 {
        lemma_constant(states, chars, i - 1);
        assert(states[i - 1].reads(states[i], Ok(chars[i - 1])));
    }
}

proof fn lemma_in_step(
    states: Seq<StreamState>,
    chars: Seq<char>,
    again: Seq<StreamState>,
    chars_again: Seq<char>,
    i: int,
)
    requires
        reads_all(states, chars),
        reads_all(again, chars_again),
        again[0].feed == states[0].feed,
        again[0].pos == states[0].pos,
        0 <= i <= chars_again.len() <= chars.len(),
    ensures
        again[i].feed == states[0].feed,
        again[i].pos == states[i].pos,
    decreases i,
{
    if i > 0 {
        lemma_in_step(states, chars, again, chars_again, i - 1);
        lemma_constant(states, chars, i - 1);
        assert(states[i - 1].reads(states[i], Ok(chars[i - 1])));
        assert(again[i - 1].reads(again[i], Ok(chars_again[i - 1])));
    }
}

} // verus!
