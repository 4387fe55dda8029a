//! A stream over a source of bytes, with a buffer which adapts its size to the demand.
use crate::checkpoints::CheckPointSet;
use crate::decode::{decode_char, incomplete_len, previous_char, MAX_INCOMPLETE};
use crate::errors::StreamError;
use crate::source;
use crate::source::Source;
use crate::storage;
use crate::storage::{
    array_clear, array_extend, array_new, array_slice, deque_drain_front, deque_extend, deque_len,
    deque_resize, deque_slice, deque_slice_mut, deque_truncate, deque_with_capacity, MAX_DEQUE_LEN,
};
use crate::streamer;
use crate::streamer::{Feed, StreamState, Streamer, StreamerRange};
use crate::text;
use slice_deque::SliceDeque;
use std::marker::PhantomData;
use tinyvec::ArrayVec;
use vstd::multiset::Multiset;
use vstd::prelude::*;
use vstd::utf8::*;

pub use crate::checkpoints::CheckPoint;

verus! {

/// How many bytes are asked of the source at a time.
pub const CHUNK_SIZE: usize = 8192;

/// The capacity that the buffer starts with.
pub const INITIAL_CAPACITY: usize = 4;

/// The room of a buffer without a maximum size: a `SliceDeque` doubles its capacity when it grows,
/// and maps it twice, so that what it maps beyond this length may exceed the largest object of
/// Rust.
pub const MAX_ROOM: usize = MAX_DEQUE_LEN;

/// A stream over a source of bytes.
///
/// The buffer holds the text from the earliest checkpoint on, or from the last character that was
/// read if there is none. The bytes of a character of which the end was not read yet stand apart.
pub struct ElasticBufferStreamer<R: Source> {
    raw_read: R,
    buffer: SliceDeque<u8>,
    max_size: Option<usize>,
    eof: bool,
    malformed: bool,
    non_complete_char: ArrayVec<[u8; 3]>,
    cursor_pos: usize,
    before_pos: Option<usize>,
    checkpoints: CheckPointSet,
    offset: u64,
    taken: Ghost<Seq<u8>>,
    lost: Ghost<Seq<u8>>,
    answers: Ghost<Seq<Result<char, StreamError>>>,
}

/// The number of bytes that a buffer of the given maximum size can hold.
pub open spec fn room_of(max_size: Option<usize>) -> nat {
    match max_size {
        Some(size) => if size < MAX_ROOM {
            size as nat
        } else {
            MAX_ROOM as nat
        },
        None => MAX_ROOM as nat,
    }
}

/// What a stream over the bytes `bytes` delivers: the characters up to the first byte that is not
/// part of one. A character that lacks its end at the end of the bytes is left out.
pub open spec fn feed_of(
    bytes: Seq<u8>,
    faulty: bool,
    abrupt: bool,
    max_size: Option<usize>,
) -> Feed {
    Feed {
        text: text::valid_prefix(bytes),
        malformed: bytes.len() - text::valid_len(bytes) > MAX_INCOMPLETE,
        chunk: CHUNK_SIZE as nat,
        faulty,
        abrupt,
        room: room_of(max_size),
    }
}

/// How many bytes are asked of the source when there is room for `left` bytes in the buffer and
/// `held` bytes of an incomplete character go there first: a chunk, or what there is room for.
pub open spec fn request_of(left: nat, held: nat) -> nat {
    if left < held + CHUNK_SIZE {
        (left - held) as nat
    } else {
        CHUNK_SIZE as nat
    }
}

/// What reading a chunk results in when `held` are the bytes of an incomplete character and the
/// source answers `answer`, of which `pending` are the bytes.
pub open spec fn read_result(
    held: Seq<u8>,
    pending: Seq<u8>,
    answer: Result<usize, std::io::ErrorKind>,
) -> Result<(), StreamError> {
    match answer {
        Ok(n) => if overflows(held + pending.take(n as int)) {
            Err(StreamError::Utf8Error)
        } else {
            Ok(())
        },
        Err(kind) => Err(StreamError::of_kind(kind)),
    }
}

/// Whether more bytes follow the characters of `bytes` than an incomplete character can have.
pub open spec fn overflows(bytes: Seq<u8>) -> bool {
    bytes.len() - text::valid_len(bytes) > MAX_INCOMPLETE
}

/// Whether `source`, asked `n` times for as many bytes as there is room for, may deliver `more` bit
/// by bit and turn into `after`. The bytes go behind `held` others where there is room for `left`.
pub open spec fn trickles<R: Source>(
    source: R,
    after: R,
    left: nat,
    held: nat,
    more: Seq<u8>,
    n: nat,
) -> bool
    decreases n,
{
    if n == 0 {
        after == source && more.len() == 0
    } else {
        exists|before: R, size: usize, request: nat|
            {
                let known = more.len() - size;
                &&& 0 < size <= more.len()
                &&& request == request_of(left, (held + known) as nat)
                &&& trickles(source, before, left, held, more.take(known), (n - 1) as nat)
                &&& more.skip(known) == before.pending().take(size as int)
                &&& #[trigger] source::answers_at_last(before, after, request, Ok(size))
            }
    }
}

/// How the bytes `taken`, of which those from `offset` on are `buffered` and then `incomplete`, are
/// laid out when `chunk` follows them.
proof fn lemma_taken(
    taken: Seq<u8>,
    offset: int,
    buffered: Seq<u8>,
    incomplete: Seq<u8>,
    chunk: Seq<u8>,
)
    requires
        0 <= offset,
        taken.len() == offset + buffered.len() + incomplete.len(),
        taken.skip(offset) == buffered + incomplete,
        valid_utf8(taken.take((offset + buffered.len()) as int)),
    ensures
        ({
            let bytes = incomplete + chunk;
            let n = text::valid_len(bytes) as int;
            let kept = buffered + bytes.take(n);
            &&& (taken + chunk).skip(offset) == kept + bytes.skip(n)
            &&& (taken + chunk).take(offset) == taken.take(offset)
            &&& valid_utf8((taken + chunk).take((offset + kept.len()) as int))
            &&& text::valid_len(bytes.skip(n)) == 0
        }),
{
    let bytes = incomplete + chunk;
    let n = text::valid_len(bytes) as int;
    let kept = buffered + bytes.take(n);
    let past = taken.take(offset);
    let known = taken.take((offset + buffered.len()) as int);
    text::lemma_valid_len_bound(bytes);
    text::lemma_valid_len_rest(bytes);
    assert(taken =~= past + (buffered + incomplete));
    assert(taken + chunk =~= past + (kept + bytes.skip(n)));
    assert((taken + chunk).skip(offset) =~= kept + bytes.skip(n));
    assert((taken + chunk).take(offset) =~= past);
    assert((taken + chunk).take((offset + kept.len()) as int) =~= known + bytes.take(n));
    valid_utf8_concat(known, bytes.take(n));
}

/// Bytes that stay malformed whatever follows them end the text before them.
proof fn lemma_malformed_after(known: Seq<u8>, bytes: Seq<u8>, rest: Seq<u8>)
    requires
        valid_utf8(known),
        bytes.len() - text::valid_len(bytes) > MAX_INCOMPLETE,
    ensures
        text::valid_len(known + (bytes + rest)) == known.len() + text::valid_len(bytes),
{
    let n = text::valid_len(bytes) as int;
    text::lemma_valid_len_bound(bytes);
    text::lemma_valid_len_rest(bytes);
    text::lemma_malformed(bytes.skip(n), rest);
    assert(bytes + rest =~= bytes.take(n) + (bytes.skip(n) + rest));
    text::lemma_valid_len_concat(bytes.take(n), bytes.skip(n) + rest);
    text::lemma_valid_len_concat(known, bytes + rest);
}

/// An answer that is no interruption is the last one.
proof fn lemma_answers_at_once<R: Source>(
    source: R,
    after: R,
    request: nat,
    r: Result<usize, std::io::ErrorKind>,
)
    requires
        source.answers(&after, request, r),
        r != Err::<usize, std::io::ErrorKind>(std::io::ErrorKind::Interrupted),
    ensures
        source::answers_at_last(source, after, request, r),
{
    assert(source::answers_after(source, after, request, r, 0));
}

/// An answer after an interruption.
proof fn lemma_answers_again<R: Source>(
    source: R,
    next: R,
    after: R,
    request: nat,
    r: Result<usize, std::io::ErrorKind>,
)
    requires
        source.answers(&next, request, Err(std::io::ErrorKind::Interrupted)),
        source::answers_at_last(next, after, request, r),
    ensures
        source::answers_at_last(source, after, request, r),
{
    let retries = choose|retries: nat| source::answers_after(next, after, request, r, retries);
    assert(source::answers_after(source, after, request, r, retries + 1));
}

/// One more bit after others.
proof fn lemma_trickles_push<R: Source>(
    source: R,
    before: R,
    after: R,
    left: nat,
    held: nat,
    more: Seq<u8>,
    size: usize,
    n: nat,
)
    requires
        trickles(source, before, left, held, more, n),
        0 < size <= before.pending().len(),
        source::answers_at_last(
            before,
            after,
            request_of(left, (held + more.len()) as nat),
            Ok(size),
        ),
    ensures
        trickles(source, after, left, held, more + before.pending().take(size as int), n + 1),
{
    let all = more + before.pending().take(size as int);
    assert(all.take(more.len() as int) =~= more);
    assert(all.skip(more.len() as int) =~= before.pending().take(size as int));
    assert(all.len() - size == more.len());
}

/// Reads bytes of `source` into the end of `deque`, from the index `from` on.
fn read_into_tail<R: Source>(
    source: &mut R,
    deque: &mut SliceDeque<u8>,
    from: usize,
) -> (r: Result<usize, std::io::ErrorKind>)
    requires
        from < storage::deque_bytes(*old(deque)).len(),
    ensures
        old(source).answers(
            final(source),
            (storage::deque_bytes(*old(deque)).len() - from) as nat,
            r,
        ),
        storage::deque_bytes(*final(deque)).len() == storage::deque_bytes(*old(deque)).len(),
        storage::deque_bytes(*final(deque)).take(from as int) == storage::deque_bytes(
            *old(deque),
        ).take(from as int),
        reads_on(*old(source), *final(source), r),
        r matches Ok(n) ==> {
            &&& from + n <= storage::deque_bytes(*old(deque)).len()
            &&& storage::deque_bytes(*final(deque)).subrange(from as int, from + n) == old(
                source,
            ).pending().take(n as int)
        },
{
    let slice = deque_slice_mut(deque);
    let (_, tail) = slice.split_at_mut(from);
    source.read(tail)
}

/// What every read of a source keeps.
pub open spec fn reads_on<R: Source>(
    source: R,
    after: R,
    r: Result<usize, std::io::ErrorKind>,
) -> bool {
    &&& after.faulty() == source.faulty()
    &&& after.abrupt() == source.abrupt()
    &&& after.interruptions() <= source.interruptions()
    &&& match r {
        Ok(n) => if n == 0 {
            source.pending().len() == 0
        } else {
            &&& n <= source.pending().len()
            &&& after.pending() == source.pending().skip(n as int)
        },
        Err(kind) => {
            &&& after.pending() == source.pending()
            &&& kind is UnexpectedEof ==> source.pending().len() == 0 || source.abrupt()
            &&& if kind is Interrupted {
                after.interruptions() < source.interruptions()
            } else {
                source.faulty()
            }
        },
    }
}

/// Appends `incomplete` and up to `request` bytes of `source` to `deque`, and returns their number.
/// Leaves `deque` as it is if the source fails.
fn append_chunk<R: Source>(
    source: &mut R,
    deque: &mut SliceDeque<u8>,
    incomplete: &[u8],
    request: usize,
) -> (r: Result<usize, std::io::ErrorKind>)
    requires
        0 < request,
        storage::deque_bytes(*old(deque)).len() + incomplete@.len() + request <= MAX_DEQUE_LEN,
    ensures
        old(source).answers(final(source), request as nat, r),
        reads_on(*old(source), *final(source), r),
        match r {
            Ok(n) => {
                &&& n <= request
                &&& storage::deque_bytes(*final(deque)) == storage::deque_bytes(*old(deque)) + (
                incomplete@ + old(source).pending().take(n as int))
            },
            Err(_) => storage::deque_bytes(*final(deque)) == storage::deque_bytes(*old(deque)),
        },
{
    let valid_buffered_len: usize = deque_len(deque);
    deque_extend(deque, incomplete);
    let total_buffered_len: usize = deque_len(deque);
    let ghost unread = storage::deque_bytes(*deque);
    deque_resize(deque, total_buffered_len + request, 0);
    assert(storage::deque_bytes(*deque).take(total_buffered_len as int) =~= unread);
    match read_into_tail(source, deque, total_buffered_len) {
        Ok(newly_read_len) => {
            let ghost full = storage::deque_bytes(*deque);
            deque_truncate(deque, total_buffered_len + newly_read_len);
            proof {
                let chunk = old(source).pending().take(newly_read_len as int);
                assert(storage::deque_bytes(*deque) =~= full.take(total_buffered_len as int)
                    + full.subrange(
                    total_buffered_len as int,
                    total_buffered_len + newly_read_len,
                ));
                assert(unread + chunk =~= storage::deque_bytes(*old(deque)) + (incomplete@
                    + chunk));
            }
            Ok(newly_read_len)
        },
        Err(kind) => {
            let ghost full = storage::deque_bytes(*deque);
            deque_truncate(deque, valid_buffered_len);
            assert(storage::deque_bytes(*deque) =~= full.take(total_buffered_len as int).take(
                valid_buffered_len as int,
            ));
            Err(kind)
        },
    }
}

impl<R: Source> ElasticBufferStreamer<R> {
    /// The text that is in the buffer.
    pub closed spec fn buffered(&self) -> Seq<u8> {
        storage::deque_bytes(self.buffer)
    }

    /// The bytes after the buffer of a character of which the end was not read yet.
    pub closed spec fn held_back(&self) -> Seq<u8> {
        storage::array_bytes(self.non_complete_char)
    }

    /// The position of the first byte in the buffer.
    pub closed spec fn base(&self) -> nat {
        self.offset as nat
    }

    /// Whether the source has reported its end.
    pub closed spec fn ended(&self) -> bool {
        self.eof
    }

    /// Whether bytes were read that are not UTF-8.
    pub closed spec fn broken(&self) -> bool {
        self.malformed
    }

    /// The source.
    pub closed spec fn source(&self) -> R {
        self.raw_read
    }

    /// The number of bytes that the buffer can hold.
    pub open spec fn room(&self) -> nat {
        self.delivers().room
    }

    /// What the stream delivers.
    pub closed spec fn delivers(&self) -> Feed {
        feed_of(self.whole(), self.raw_read.faulty(), self.raw_read.abrupt(), self.max_size)
    }

    /// The current position.
    pub closed spec fn cursor(&self) -> nat {
        (self.offset + self.cursor_pos) as nat
    }

    /// The positions of the checkpoints that were not given back yet.
    pub closed spec fn outstanding(&self) -> Multiset<nat> {
        self.checkpoints@
    }

    /// The position that can be gone back to, one character before the current one.
    pub closed spec fn last_start(&self) -> Option<nat> {
        match self.before_pos {
            Some(before) => Some((self.offset + before) as nat),
            None => None,
        }
    }

    /// What `next` has answered so far.
    pub closed spec fn answered(&self) -> Seq<Result<char, StreamError>> {
        self.answers@
    }

    /// What stops the stream at the end of its buffer, if that is known.
    pub open spec fn known_end(&self) -> Option<StreamError> {
        if self.ended() {
            Some(StreamError::EndOfInput)
        } else if self.broken() {
            Some(StreamError::Utf8Error)
        } else {
            None
        }
    }

    /// Whether the stream is well-formed.
    pub closed spec fn sound(&self) -> bool {
        let text = self.delivers().text;
        &&& self.whole().len() <= u64::MAX
        &&& text::is_boundary(text, self.cursor())
        &&& self@.back_fits()
        &&& forall|mark: nat| #[trigger]
            self.checkpoints@.count(mark) > 0 ==> text::is_boundary(text, mark)
        &&& self.layout()
    }

    /// Whether the stream has the same buffer and source as `other`.
    pub open spec fn same_buffer(&self, other: &Self) -> bool {
        &&& self.base() == other.base()
        &&& self.buffered() == other.buffered()
        &&& self.held_back() == other.held_back()
        &&& self.ended() == other.ended()
        &&& self.broken() == other.broken()
        &&& self.source() == other.source()
        &&& self.room() == other.room()
    }

    /// Whether all characters in the buffer were read.
    pub open spec fn exhausted(&self) -> bool {
        self.cursor() == self.base() + self.buffered().len()
    }

    /// The position up to which the text may be forgotten, checkpoints aside.
    pub open spec fn forgettable(&self) -> nat {
        self@.forgettable()
    }

    /// Whether the stream has the buffer that results when the buffer was `buffered`, the bytes of
    /// an incomplete character were `held`, and the source answered `answer`, of which `pending`
    /// are the bytes: the characters that the new bytes complete are in the buffer, and the bytes
    /// of an incomplete one are held back. Malformed bytes are dropped with all that were read.
    pub open spec fn takes(
        &self,
        buffered: Seq<u8>,
        held: Seq<u8>,
        pending: Seq<u8>,
        answer: Result<usize, std::io::ErrorKind>,
    ) -> bool {
        match answer {
            Ok(n) => {
                let bytes = held + pending.take(n as int);
                let len = text::valid_len(bytes) as int;
                &&& n <= pending.len()
                &&& self.ended() == (n == 0)
                &&& self.broken() == overflows(bytes)
                &&& if overflows(bytes) {
                    self.buffered() == buffered && self.held_back() == held
                } else {
                    &&& self.buffered() == buffered + bytes.take(len)
                    &&& self.held_back() == bytes.skip(len)
                    &&& n > 0 ==> self.source().pending() == pending.skip(n as int)
                }
            },
            Err(_) => {
                &&& !self.ended()
                &&& !self.broken()
                &&& self.buffered() == buffered
                &&& self.held_back() == held
                &&& self.source().pending() == pending
            },
        }
    }

    /// Whether reading a chunk, or what there is room for, may turn the stream into `after` with
    /// the result `r`. The source is asked again each time that it is interrupted.
    pub open spec fn reads_chunk(&self, after: &Self, r: Result<(), StreamError>) -> bool {
        exists|request: nat, answer: Result<usize, std::io::ErrorKind>|
            {
                &&& request == request_of(
                    (self.room() - self.buffered().len()) as nat,
                    self.held_back().len(),
                )
                &&& #[trigger] source::answers_at_last(
                    self.source(),
                    after.source(),
                    request,
                    answer,
                )
                &&& answer matches Ok(n) ==> n <= request
                &&& after.takes(
                    self.buffered(),
                    self.held_back(),
                    self.source().pending(),
                    answer,
                )
                &&& r == read_result(self.held_back(), self.source().pending(), answer)
            }
    }

    /// Whether filling the buffer of the stream, of which all characters were read, may turn it
    /// into `after` with the result `r`. If a chunk could exceed the room that is left by what the
    /// stream keeps, the source is not asked. Otherwise it is asked until it delivers the end of a
    /// character, reports its end, or fails.
    pub open spec fn fills(&self, after: &Self, r: Result<(), StreamError>) -> bool {
        let kept = self.buffered().skip(after.base() - self.base());
        let left = (self.room() - kept.len()) as nat;
        if kept.len() + CHUNK_SIZE > self.room() {
            &&& r == Err::<(), StreamError>(StreamError::BufferFull)
            &&& after.source() == self.source()
            &&& !after.ended()
            &&& !after.broken()
            &&& after.buffered() == kept
            &&& after.held_back() == self.held_back()
        } else {
            exists|
                last: R,
                request: nat,
                answer: Result<usize, std::io::ErrorKind>,
                more: Seq<u8>,
                n: nat,
            |
                {
                    let held = self.held_back() + more;
                    &&& #[trigger] trickles(
                        self.source(),
                        last,
                        left,
                        self.held_back().len(),
                        more,
                        n,
                    )
                    &&& held.len() <= MAX_INCOMPLETE
                    &&& text::valid_len(held) == 0
                    &&& request == request_of(left, held.len())
                    &&& #[trigger] source::answers_at_last(last, after.source(), request, answer)
                    &&& answer matches Ok(size) ==> size <= request
                    &&& after.takes(kept, held, last.pending(), answer)
                    &&& r == if answer == Ok::<usize, std::io::ErrorKind>(0) {
                        Err(StreamError::EndOfInput)
                    } else {
                        read_result(held, last.pending(), answer)
                    }
                }
        }
    }

    /// The bytes of the source that the stream has not set apart or put in its buffer.
    spec fn unread(&self) -> Seq<u8> {
        if self.eof {
            Seq::empty()
        } else {
            self.lost@ + self.raw_read.pending()
        }
    }

    /// All bytes of the source, those that it has delivered and those that it has not.
    spec fn whole(&self) -> Seq<u8> {
        self.taken@ + self.unread()
    }

    /// The end of the text that was read from the source.
    spec fn frontier(&self) -> nat {
        self.base() + self.buffered().len()
    }

    /// Whether malformed bytes follow the buffer within a chunk.
    spec fn spoiled(&self) -> bool {
        &&& self.delivers().malformed
        &&& self.delivers().text.len() < self.frontier() + CHUNK_SIZE
    }

    /// Whether nothing of the text follows the buffer.
    spec fn complete(&self) -> bool {
        &&& !self.delivers().malformed
        &&& self.delivers().text.len() == self.frontier()
    }

    /// How the bytes that were read from the source are laid out.
    spec fn layout(&self) -> bool {
        let buffered = self.buffered();
        let incomplete = self.held_back();
        &&& buffered.len() <= self.room()
        &&& self.taken@.len() == self.offset + buffered.len() + incomplete.len()
        &&& self.taken@.skip(self.offset as int) == buffered + incomplete
        &&& valid_utf8(self.taken@.take(self.offset as int))
        &&& valid_utf8(self.taken@.take(self.frontier() as int))
        &&& incomplete.len() <= MAX_INCOMPLETE
        &&& text::valid_len(incomplete) == 0
        &&& self.cursor_pos <= buffered.len()
        &&& forall|mark: nat| #[trigger]
            self.checkpoints@.count(mark) > 0 ==> self.base() <= mark <= self.frontier()
        &&& if self.malformed {
            !self.eof && self.spoiled()
        } else {
            self.lost@.len() == 0
        }
    }

    /// The buffer holds the text from `base` on, no more of it than there is room for, and all of
    /// it that a checkpoint or the current position needs.
    pub proof fn law_buffer_is_window(&self)
        requires
            self.sound(),
        ensures
            self.base() + self.buffered().len() <= self.delivers().text.len(),
            self.buffered() == self.delivers().text.subrange(
                self.base() as int,
                (self.base() + self.buffered().len()) as int,
            ),
            self.buffered().len() <= self.room(),
            self.base() <= self.cursor() <= self.base() + self.buffered().len(),
            self.last_start() is Some ==> self.base() <= self.last_start()->0,
            forall|mark: nat| #[trigger]
                self.outstanding().count(mark) > 0 ==> self.base() <= mark <= self.base()
                    + self.buffered().len(),
    {
        self.lemma_text();
    }

    /// The text begins with what was read from the source, up to the incomplete character.
    #[verifier::rlimit(30)]
    proof fn lemma_text(&self)
        requires
            self.layout(),
        ensures
            self.frontier() <= self.delivers().text.len(),
            self.delivers().text.take(self.frontier() as int) == self.taken@.take(
                self.frontier() as int,
            ),
            self.delivers().text.subrange(self.base() as int, self.frontier() as int)
                == self.buffered(),
            self.unread().len() == 0 ==> self.complete(),
            valid_utf8(self.delivers().text),
            valid_utf8(self.buffered()),
    {
        let known = self.taken@.take(self.frontier() as int);
        let incomplete = self.held_back();
        let unread = self.unread();
        let past = self.taken@.take(self.offset as int);
        assert(self.taken@ =~= past + self.taken@.skip(self.offset as int));
        assert(known =~= past + self.buffered());
        assert(self.whole() =~= known + (incomplete + unread));
        text::lemma_valid_len_concat(known, incomplete + unread);
        text::lemma_valid_len_bound(self.whole());
        assert(self.delivers().text.take(self.frontier() as int) =~= known);
        assert(self.delivers().text.subrange(self.base() as int, self.frontier() as int)
            =~= self.buffered());
        if unread.len() == 0 {
            assert(incomplete + unread =~= incomplete);
        }
        assert(known.take(self.offset as int) =~= past);
        text::lemma_boundary_skip(known, self.offset as nat);
        assert(known.skip(self.offset as int) =~= self.buffered());
    }

    /// The buffer is a window of the text: boundaries and characters are the same in both.
    #[verifier::rlimit(30)]
    proof fn lemma_window(&self, i: nat)
        requires
            self.layout(),
            i <= self.buffered().len(),
        ensures
            valid_utf8(self.buffered()),
            text::is_boundary(self.buffered(), i) <==> text::is_boundary(
                self.delivers().text,
                self.base() + i,
            ),
            text::is_boundary(self.buffered(), i) && i < self.buffered().len() ==> {
                &&& self.base() + i < self.delivers().text.len()
                &&& text::char_at(self.delivers().text, self.base() + i) == text::char_at(
                    self.buffered(),
                    i,
                )
                &&& text::width_at(self.delivers().text, self.base() + i) == text::width_at(
                    self.buffered(),
                    i,
                )
                &&& text::is_boundary(
                    self.delivers().text,
                    self.base() + i + text::width_at(self.delivers().text, self.base() + i),
                )
                &&& 1 <= text::width_at(self.buffered(), i) <= self.buffered().len() - i
            },
    {
        self.lemma_text();
        let text = self.delivers().text;
        let base = self.base() as int;
        let past = text.take(base);
        let rest = text.skip(self.frontier() as int);
        let read = text.take(base + i);
        let shown = self.buffered().take(i as int);
        assert(past =~= self.taken@.take(base)) by {
            assert(text.take(self.frontier() as int).take(base) =~= past);
            assert(self.taken@.take(self.frontier() as int).take(base) =~= self.taken@.take(base));
        }
        assert(read.take(base) =~= past);
        assert(shown =~= read.skip(base));
        assert(read =~= past + shown);
        if valid_utf8(read) {
            text::lemma_boundary_skip(read, base as nat);
        }
        if valid_utf8(shown) {
            valid_utf8_concat(past, shown);
        }
        if text::is_boundary(self.buffered(), i) && i < self.buffered().len() {
            assert(text =~= past + (self.buffered() + rest));
            text::lemma_char_extend(self.buffered(), rest, i);
            text::lemma_char_shift(past, self.buffered() + rest, i);
            text::lemma_boundary_next(text, self.base() + i);
            text::lemma_boundary_next(self.buffered(), i);
        }
    }

    /// The text up to a boundary can be dropped from the buffer if nothing refers to it.
    #[verifier::rlimit(30)]
    proof fn lemma_forgotten(&self, before: Self, n: nat)
        requires
            before.sound(),
            !before.malformed,
            n <= before.cursor_pos,
            forall|mark: nat| #[trigger]
                before.checkpoints@.count(mark) > 0 ==> before.offset + n <= mark,
            text::is_boundary(before.delivers().text, before.base() + n),
            self.raw_read == before.raw_read,
            self.buffered() == before.buffered().skip(n as int),
            self.max_size == before.max_size,
            self.eof == before.eof,
            self.malformed == before.malformed,
            self.non_complete_char == before.non_complete_char,
            self.cursor_pos == before.cursor_pos - n,
            self.last_start() == before.last_start(),
            self.checkpoints == before.checkpoints,
            self.offset == before.offset + n,
            self.taken == before.taken,
            self.lost == before.lost,
        ensures
            self.sound(),
            self.delivers() == before.delivers(),
    {
        before.lemma_text();
        let skipped = before.taken@.skip(before.offset as int);
        assert(self.taken@.skip(self.offset as int) =~= skipped.skip(n as int));
        assert(skipped.skip(n as int) =~= self.buffered() + self.held_back());
        let text = self.delivers().text;
        assert(self.taken@.take(self.offset as int) =~= text.take(self.offset as int));
    }

    /// Bytes that the source delivered go to the buffer up to the last character that they
    /// complete.
    #[verifier::rlimit(30)]
    proof fn lemma_chunk(&self, before: Self, chunk: Seq<u8>)
        requires
            before.sound(),
            !before.eof,
            !before.malformed,
            chunk.len() <= before.raw_read.pending().len(),
            chunk == before.raw_read.pending().take(chunk.len() as int),
            self.raw_read.pending() == before.raw_read.pending().skip(chunk.len() as int),
            self.raw_read.faulty() == before.raw_read.faulty(),
            self.raw_read.abrupt() == before.raw_read.abrupt(),
            ({
                let bytes = before.held_back() + chunk;
                let n = text::valid_len(bytes) as int;
                &&& !overflows(bytes)
                &&& self.buffered() == before.buffered() + bytes.take(n)
                &&& self.held_back() == bytes.skip(n)
            }),
            self.buffered().len() <= self.room(),
            self.max_size == before.max_size,
            self.eof == before.eof,
            self.malformed == before.malformed,
            self.cursor_pos == before.cursor_pos,
            self.before_pos == before.before_pos,
            self.checkpoints == before.checkpoints,
            self.offset == before.offset,
            self.taken@ == before.taken@ + chunk,
            self.lost == before.lost,
        ensures
            self.sound(),
            self.delivers() == before.delivers(),
    {
        lemma_taken(
            before.taken@,
            before.offset as int,
            before.buffered(),
            before.held_back(),
            chunk,
        );
        text::lemma_valid_len_bound(before.held_back() + chunk);
        assert(self.whole() =~= before.whole());
    }

    /// Bytes after which too many follow that are not part of a character are malformed.
    #[verifier::rlimit(30)]
    proof fn lemma_malformed_chunk(&self, chunk: Seq<u8>)
        requires
            self.sound(),
            !self.eof,
            !self.malformed,
            chunk.len() <= CHUNK_SIZE,
            chunk.len() <= self.raw_read.pending().len(),
            chunk == self.raw_read.pending().take(chunk.len() as int),
            overflows(self.held_back() + chunk),
        ensures
            self.spoiled(),
    {
        let bytes = self.held_back() + chunk;
        let rest = self.raw_read.pending().skip(chunk.len() as int);
        let known = self.taken@.take(self.frontier() as int);
        lemma_malformed_after(known, bytes, rest);
        text::lemma_valid_len_bound(self.whole());
        assert(self.whole() =~= known + (bytes + rest)) by {
            let skipped = self.taken@.skip(self.offset as int);
            assert(self.taken@ =~= self.taken@.take(self.offset as int) + skipped);
            assert(known =~= self.taken@.take(self.offset as int) + self.buffered());
            assert(self.raw_read.pending() =~= chunk + rest);
        }
    }

    /// A read that brings nothing into the buffer changes nothing of the text.
    proof fn lemma_nothing_read(&self, before: Self)
        requires
            before.sound(),
            !before.eof,
            !before.malformed,
            self.whole() == before.whole(),
            self.raw_read.faulty() == before.raw_read.faulty(),
            self.raw_read.abrupt() == before.raw_read.abrupt(),
            self.buffered() == before.buffered(),
            self.max_size == before.max_size,
            self.non_complete_char == before.non_complete_char,
            self.cursor_pos == before.cursor_pos,
            self.before_pos == before.before_pos,
            self.checkpoints == before.checkpoints,
            self.offset == before.offset,
            self.taken == before.taken,
            if self.malformed {
                !self.eof && before.spoiled()
            } else {
                self.lost@.len() == 0
            },
        ensures
            self.sound(),
            self.delivers() == before.delivers(),
            self.unread().len() == 0 ==> self.complete(),
    {
        self.lemma_text();
    }

    /// What an answer of the source that is no interruption makes of the stream.
    #[verifier::rlimit(30)]
    proof fn lemma_read(
        &self,
        before: Self,
        request: nat,
        answer: Result<usize, std::io::ErrorKind>,
        r: Result<(), StreamError>,
    )
        requires
            before.sound(),
            !before.eof,
            !before.malformed,
            self.sound(),
            self.delivers() == before.delivers(),
            self.cursor_pos == before.cursor_pos,
            self.before_pos == before.before_pos,
            self.checkpoints == before.checkpoints,
            self.offset == before.offset,
            self.answers == before.answers,
            request == request_of(
                (before.room() - before.buffered().len()) as nat,
                before.held_back().len(),
            ),
            before.source().answers(&self.source(), request, answer),
            reads_on(before.source(), self.source(), answer),
            answer != Err::<usize, std::io::ErrorKind>(std::io::ErrorKind::Interrupted),
            answer matches Ok(n) ==> n <= request,
            self.takes(
                before.buffered(),
                before.held_back(),
                before.source().pending(),
                answer,
            ),
            r == read_result(before.held_back(), before.source().pending(), answer),
        ensures
            self@ == (StreamState { fetched: self@.fetched, end: self@.end, ..before@ }),
            r matches Err(error) ==> before@.asks(self@, Err(error)),
            before.reads_chunk(self, r),
    {
        lemma_answers_at_once(before.source(), self.source(), request, answer);
        assert(source::answers_at_last(before.source(), self.source(), request, answer));
        if answer is Err && before.source().pending().len() == 0 {
            before.lemma_text();
        }
    }

    /// A chunk that is read after an interruption.
    proof fn lemma_read_again(
        &self,
        before: Self,
        after: Self,
        request: nat,
        r: Result<(), StreamError>,
    )
        requires
            request == request_of(
                (before.room() - before.buffered().len()) as nat,
                before.held_back().len(),
            ),
            before.source().answers(
                &self.source(),
                request,
                Err(std::io::ErrorKind::Interrupted),
            ),
            self.source().pending() == before.source().pending(),
            self.buffered() == before.buffered(),
            self.held_back() == before.held_back(),
            self.room() == before.room(),
            self.reads_chunk(&after, r),
        ensures
            before.reads_chunk(&after, r),
    {
        let (asked, answer) = choose|asked: nat, answer: Result<usize, std::io::ErrorKind>|
            {
                &&& asked == request
                &&& #[trigger] source::answers_at_last(
                    self.source(),
                    after.source(),
                    asked,
                    answer,
                )
                &&& answer matches Ok(n) ==> n <= asked
                &&& after.takes(
                    self.buffered(),
                    self.held_back(),
                    self.source().pending(),
                    answer,
                )
                &&& r == read_result(self.held_back(), self.source().pending(), answer)
            };
        lemma_answers_again(before.source(), self.source(), after.source(), request, answer);
        assert(source::answers_at_last(before.source(), after.source(), request, answer));
    }

    /// The number of bytes that the buffer can hold.
    fn limit(&self) -> (room: usize)
        ensures
            room == self.room(),
    {
        match self.max_size {
            Some(max_size) => if max_size < MAX_ROOM {
                max_size
            } else {
                MAX_ROOM
            },
            None => MAX_ROOM,
        }
    }

    /// Reads bytes of the source into the buffer: a chunk, or what there is room for.
    ///
    /// The buffer holds characters that were checked already. After them come the bytes of the
    /// character of which the end was not read yet, and after those the bytes that are read now. Of
    /// what was not checked yet, the characters stay in the buffer, and the bytes of a last one of
    /// which the end was not read yet are set apart.
    #[verifier::spinoff_prover]
    #[verifier::rlimit(50)]
    pub(crate) fn read_new_chunk_from_raw(&mut self) -> (r: Result<(), StreamError>)
        requires
            old(self).sound(),
            !old(self).ended(),
            !old(self).broken(),
            old(self).buffered().len() + CHUNK_SIZE <= old(self).room(),
        ensures
            final(self).sound(),
            final(self)@ == (StreamState {
                fetched: final(self)@.fetched,
                end: final(self)@.end,
                ..old(self)@
            }),
            r matches Err(error) ==> old(self)@.asks(final(self)@, Err(error)),
            old(self).reads_chunk(final(self), r),
        decreases old(self).source().interruptions(),
    {
        let ghost before = *self;
        let valid_buffered_len: usize = deque_len(&self.buffer);
        let held_len: usize = array_slice(&self.non_complete_char).len();
        let left: usize = self.limit() - valid_buffered_len;
        let request: usize = if left - held_len < CHUNK_SIZE {
            left - held_len
        } else {
            CHUNK_SIZE
        };
        let answer = append_chunk(
            &mut self.raw_read,
            &mut self.buffer,
            array_slice(&self.non_complete_char),
            request,
        );
        let ghost held = before.held_back();
        let ghost pending = before.source().pending();
        match answer {
            Ok(newly_read_len) => {
                let ghost chunk = pending.take(newly_read_len as int);
                let ghost bytes = held + chunk;
                proof {
                    text::lemma_valid_len_bound(bytes);
                }
                if newly_read_len == 0 {
                    deque_truncate(&mut self.buffer, valid_buffered_len);
                    self.eof = true;
                    proof {
                        assert(bytes =~= held);
                        assert(self.buffered() =~= before.buffered());
                        assert(before.buffered() + bytes.take(0) =~= before.buffered());
                        assert(bytes.skip(0) =~= held);
                        assert(self.whole() =~= before.whole());
                        self.lemma_nothing_read(before);
                        self.lemma_read(before, request as nat, answer, Ok(()));
                    }
                    return Ok(());
                }
                let all = deque_slice(&self.buffer);
                let unchecked = vstd::slice::slice_subrange(all, valid_buffered_len, all.len());
                assert(unchecked@ =~= bytes);
                match incomplete_len(unchecked) {
                    Some(incomplete_bytes) => {
                        let kept: usize = all.len() - incomplete_bytes;
                        array_clear(&mut self.non_complete_char);
                        array_extend(
                            &mut self.non_complete_char,
                            vstd::slice::slice_subrange(all, kept, all.len()),
                        );
                        deque_truncate(&mut self.buffer, kept);
                        proof {
                            self.taken@ = self.taken@ + chunk;
                            let n = text::valid_len(bytes) as int;
                            assert(self.buffered() =~= before.buffered() + bytes.take(n));
                            assert(self.held_back() =~= bytes.skip(n));
                            self.lemma_chunk(before, chunk);
                            self.lemma_read(before, request as nat, answer, Ok(()));
                        }
                        Ok(())
                    },
                    None => {
                        deque_truncate(&mut self.buffer, valid_buffered_len);
                        self.malformed = true;
                        proof {
                            self.lost@ = chunk;
                            before.lemma_malformed_chunk(chunk);
                            assert(self.buffered() =~= before.buffered());
                            assert(self.whole() =~= before.whole());
                            self.lemma_nothing_read(before);
                            self.lemma_read(
                                before,
                                request as nat,
                                answer,
                                Err(StreamError::Utf8Error),
                            );
                        }
                        Err(StreamError::Utf8Error)
                    },
                }
            },
            Err(kind) => {
                proof {
                    assert(self.whole() =~= before.whole());
                    self.lemma_nothing_read(before);
                }
                match kind {
                    std::io::ErrorKind::Interrupted => {
                        let ghost first = *self;
                        let r = self.read_new_chunk_from_raw();
                        proof {
                            first.lemma_read_again(before, *self, request as nat, r);
                        }
                        r
                    },
                    _ => {
                        proof {
                            self.lemma_read(
                                before,
                                request as nat,
                                answer,
                                Err(StreamError::of_kind(kind)),
                            );
                        }
                        Err(StreamError::from_kind(kind))
                    },
                }
            },
        }
    }

    /// Forgets the text that nothing can go back to, and returns the number of bytes that stay.
    #[verifier::rlimit(30)]
    pub(crate) fn free_useless_data(&mut self) -> (len: usize)
        requires
            old(self).sound(),
            old(self).exhausted(),
            !old(self).broken(),
        ensures
            final(self).sound(),
            final(self).exhausted(),
            final(self)@ == (StreamState { base: final(self)@.base, ..old(self)@ }),
            streamer::is_least(
                final(self).base(),
                old(self).outstanding(),
                old(self).forgettable(),
            ),
            old(self).base() <= final(self).base(),
            final(self).buffered() == old(self).buffered().skip(
                final(self).base() - old(self).base(),
            ),
            final(self).held_back() == old(self).held_back(),
            final(self).ended() == old(self).ended(),
            final(self).broken() == old(self).broken(),
            final(self).source() == old(self).source(),
            final(self).room() == old(self).room(),
            len == final(self).buffered().len(),
    {
        let ghost before = *self;
        proof {
            before.lemma_text();
        }
        let checkpoint_pos_min = self.checkpoints.min_checkpoint_position();
        let cursor_pos_min: usize = match self.before_pos {
            Some(before_pos) => before_pos,
            None => self.cursor_pos,
        };
        let useless_amount: usize = match checkpoint_pos_min {
            Some(least) => {
                let least_pos: usize = (least - self.offset) as usize;
                if least_pos < cursor_pos_min {
                    least_pos
                } else {
                    cursor_pos_min
                }
            },
            None => cursor_pos_min,
        };
        deque_drain_front(&mut self.buffer, useless_amount);
        let len: usize = deque_len(&self.buffer);
        self.cursor_pos = self.cursor_pos - useless_amount;
        self.before_pos = match self.before_pos {
            Some(before_pos) => Some(before_pos - useless_amount),
            None => None,
        };
        self.offset = self.offset + useless_amount as u64;
        proof {
            self.lemma_forgotten(before, useless_amount as nat);
        }
        len
    }

    /// Forgets the text that nothing can go back to, and reads bytes of the source until the buffer
    /// holds another character.
    #[verifier::rlimit(50)]
    fn refill(&mut self) -> (r: Result<(), StreamError>)
        requires
            old(self).sound(),
            old(self).exhausted(),
            !old(self).ended(),
            !old(self).broken(),
        ensures
            final(self).sound(),
            final(self)@ == (StreamState {
                base: final(self)@.base,
                fetched: final(self)@.fetched,
                end: final(self)@.end,
                ..old(self)@
            }),
            streamer::is_least(
                final(self).base(),
                old(self).outstanding(),
                old(self).forgettable(),
            ),
            old(self).base() <= final(self).base(),
            old(self).fills(final(self), r),
            match r {
                Ok(()) => final(self)@.end is None && old(self)@.fetched < final(self)@.fetched,
                Err(StreamError::BufferFull) => {
                    &&& final(self)@.fetched == old(self)@.fetched
                    &&& final(self)@.end is None
                },
                Err(error) => old(self)@.asks(final(self)@, Err(error)),
            },
    {
        let ghost before = *self;
        let len_before_read: usize = self.free_useless_data();
        if CHUNK_SIZE > self.limit() || len_before_read > self.limit() - CHUNK_SIZE {
            return Err(StreamError::BufferFull);
        }
        let ghost base = self.base();
        let ghost kept = self.buffered();
        let ghost left = (self.room() - kept.len()) as nat;
        let ghost mut more: Seq<u8> = Seq::empty();
        let ghost mut n: nat = 0;
        proof {
            assert(self.held_back() =~= before.held_back() + more);
        }
        loop
            invariant
                before == *old(self),
                before.sound(),
                before.exhausted(),
                streamer::is_least(base, before.outstanding(), before.forgettable()),
                before.base() <= base,
                kept == before.buffered().skip(base - before.base()),
                kept.len() + CHUNK_SIZE <= before.room(),
                left == before.room() - kept.len(),
                self.sound(),
                self@ == (StreamState { base, ..before@ }),
                self.base() == base,
                self.room() == before.room(),
                self.exhausted(),
                !self.ended(),
                !self.broken(),
                self.buffered() == kept,
                self.held_back() == before.held_back() + more,
                trickles(
                    before.source(),
                    self.source(),
                    left,
                    before.held_back().len(),
                    more,
                    n,
                ),
            decreases self.source().pending().len(),
        {
            let ghost last = self.source();
            let ghost held = self.held_back();
            let r = self.read_new_chunk_from_raw();
            let ghost (request, answer) = choose|
                request: nat,
                answer: Result<usize, std::io::ErrorKind>,
            |
                {
                    &&& request == request_of(left, held.len())
                    &&& #[trigger] source::answers_at_last(last, self.source(), request, answer)
                    &&& answer matches Ok(n) ==> n <= request
                    &&& self.takes(kept, held, last.pending(), answer)
                    &&& r == read_result(held, last.pending(), answer)
                };
            assert(trickles(before.source(), last, left, before.held_back().len(), more, n));
            assert(source::answers_at_last(last, self.source(), request, answer));
            match r {
                Ok(()) => {},
                Err(error) => {
                    assert(before.fills(self, Err(error)));
                    return Err(error);
                },
            }
            if self.eof {
                assert(before.fills(self, Err(StreamError::EndOfInput)));
                return Err(StreamError::EndOfInput);
            }
            if self.cursor_pos < deque_len(&self.buffer) {
                assert(before.fills(self, Ok(())));
                return Ok(());
            }
            proof {
                let size = answer->Ok_0;
                let chunk = last.pending().take(size as int);
                let bytes = held + chunk;
                text::lemma_valid_len_bound(bytes);
                assert(self.buffered() == kept + bytes.take(text::valid_len(bytes) as int));
                assert(text::valid_len(bytes) == 0);
                assert(kept + bytes.take(0) =~= kept);
                assert(bytes.skip(0) =~= bytes);
                assert(self.held_back() =~= before.held_back() + (more + chunk));
                lemma_trickles_push(
                    before.source(),
                    last,
                    self.source(),
                    left,
                    before.held_back().len(),
                    more,
                    size,
                    n,
                );
                more = more + chunk;
                n = n + 1;
            }
        }
    }

    /// Takes the character at the cursor out of the buffer.
    fn take_char(&mut self) -> (c: char)
        requires
            old(self).sound(),
            !old(self).exhausted(),
        ensures
            final(self).sound(),
            final(self).same_buffer(old(self)),
            old(self)@.reads(final(self)@, Ok(c)),
    {
        let ghost before = *self;
        let buffer = deque_slice(&self.buffer);
        proof {
            self.lemma_window(self.cursor_pos as nat);
        }
        let (c, width) = decode_char(buffer, self.cursor_pos);
        self.before_pos = Some(self.cursor_pos);
        self.cursor_pos = self.cursor_pos + width;
        proof {
            self.answers@ = self.answers@.push(Ok(c));
            assert(self.whole() == before.whole());
            self.lemma_wf();
        }
        c
    }

    fn with_maybe_max_size(read: R, max_size: Option<usize>) -> (stream: Self)
        requires
            read.pending().len() <= u64::MAX,
        ensures
            stream.sound(),
            stream.delivers() == feed_of(read.pending(), read.faulty(), read.abrupt(), max_size),
            stream.cursor() == 0,
            stream.last_start() is None,
            stream.answered().len() == 0,
            stream.outstanding() == Multiset::<nat>::empty(),
            stream.base() == 0,
            stream.buffered().len() == 0,
            stream.held_back().len() == 0,
            !stream.ended(),
            !stream.broken(),
            stream.source() == read,
            stream.room() == room_of(max_size),
    {
        let deque = deque_with_capacity(INITIAL_CAPACITY);
        let stream = ElasticBufferStreamer {
            raw_read: read,
            buffer: deque,
            max_size,
            eof: false,
            malformed: false,
            non_complete_char: array_new(),
            cursor_pos: 0,
            before_pos: None,
            checkpoints: CheckPointSet::new(),
            offset: 0,
            taken: Ghost(Seq::empty()),
            lost: Ghost(Seq::empty()),
            answers: Ghost(Seq::empty()),
        };
        proof {
            assert(stream.whole() =~= read.pending());
            assert(stream.taken@.take(0) =~= Seq::<u8>::empty());
            assert(stream.taken@.skip(0) =~= stream.buffered() + stream.held_back());
            text::lemma_valid_len_bound(read.pending());
            assert(stream.delivers().text.take(0) =~= Seq::<u8>::empty());
        }
        stream
    }

    /// A stream whose buffer grows as long as there is memory for it, but not beyond `MAX_ROOM`
    /// bytes, which a `SliceDeque` cannot be relied on to hold. A stream that would need more is
    /// full, as if that was its maximum size.
    pub fn unlimited(read: R) -> (stream: Self)
        requires
            read.pending().len() <= u64::MAX,
        ensures
            stream.sound(),
            stream.delivers() == feed_of(read.pending(), read.faulty(), read.abrupt(), None),
            stream.cursor() == 0,
            stream.last_start() is None,
            stream.answered().len() == 0,
            stream.outstanding() == Multiset::<nat>::empty(),
            stream.base() == 0,
            stream.buffered().len() == 0,
            stream.held_back().len() == 0,
            !stream.ended(),
            !stream.broken(),
            stream.source() == read,
            stream.room() == room_of(None),
    {
        Self::with_maybe_max_size(read, None)
    }

    /// A stream which reads no more bytes when its buffer could grow beyond `max_size` bytes.
    pub fn with_max_size(read: R, max_size: usize) -> (stream: Self)
        requires
            read.pending().len() <= u64::MAX,
        ensures
            stream.sound(),
            stream.delivers() == feed_of(
                read.pending(),
                read.faulty(),
                read.abrupt(),
                Some(max_size),
            ),
            stream.cursor() == 0,
            stream.last_start() is None,
            stream.answered().len() == 0,
            stream.outstanding() == Multiset::<nat>::empty(),
            stream.base() == 0,
            stream.buffered().len() == 0,
            stream.held_back().len() == 0,
            !stream.ended(),
            !stream.broken(),
            stream.source() == read,
            stream.room() == room_of(Some(max_size)),
    {
        Self::with_maybe_max_size(read, Some(max_size))
    }

    /// The number of bytes in the buffer.
    pub fn buffer_len(&self) -> (len: usize)
        requires
            self.sound(),
        ensures
            len == self.buffered().len(),
            len == self@.fetched - self@.base,
            len <= self@.feed.room,
    {
        deque_len(&self.buffer)
    }

    /// Whether the stream can go one character back.
    pub fn can_go_back(&self) -> (b: bool)
        ensures
            b == (self.last_start() is Some),
    {
        self.before_pos.is_some()
    }

    /// Makes another checkpoint at the position of `checkpoint`.
    pub fn duplicate(&mut self, checkpoint: &CheckPoint) -> (other: CheckPoint)
        requires
            old(self).sound(),
            old(self).outstanding().count(checkpoint.position()) > 0,
        ensures
            final(self).sound(),
            final(self)@ == (StreamState {
                marks: old(self).outstanding().insert(checkpoint.position()),
                ..old(self)@
            }),
            final(self).same_buffer(old(self)),
            other.position() == checkpoint.position(),
    {
        self.checkpoints.insert(checkpoint.inner())
    }
}

impl<R: Source> View for ElasticBufferStreamer<R> {
    type V = StreamState;

    open spec fn view(&self) -> StreamState {
        StreamState {
            feed: self.delivers(),
            pos: self.cursor(),
            back: self.last_start(),
            marks: self.outstanding(),
            base: self.base(),
            fetched: self.base() + self.buffered().len(),
            end: self.known_end(),
            answers: self.answered(),
        }
    }
}

impl<R: Source> Streamer for ElasticBufferStreamer<R> {
    type CheckPoint = CheckPoint;

    type Range = Range<R>;

    open spec fn wf(&self) -> bool {
        self.sound()
    }

    open spec fn place(checkpoint: &CheckPoint) -> nat {
        checkpoint.position()
    }

    proof fn lemma_wf(&self) {
        self.lemma_text();
        text::lemma_valid_len_bound(self.whole());
        let text = self.delivers().text;
        assert(text.take(self.offset as int) =~= text.take(self.frontier() as int).take(
            self.offset as int,
        ));
        assert(self.taken@.take(self.offset as int) =~= self.taken@.take(
            self.frontier() as int,
        ).take(self.offset as int));
    }

    proof fn lemma_range(&self, range: Range<R>) {
        self.lemma_text();
    }

    /// The characters in the buffer come first. Then the source is asked, unless it has reported
    /// its end, malformed bytes were read, or the buffer is full.
    fn next(&mut self) -> (r: Result<char, StreamError>)
        ensures
            final(self).room() == old(self).room(),
            !old(self).exhausted() ==> r is Ok && final(self).same_buffer(old(self)),
            old(self).exhausted() && old(self).ended() ==> {
                &&& r == Err::<char, StreamError>(StreamError::EndOfInput)
                &&& final(self).same_buffer(old(self))
            },
            old(self).exhausted() && old(self).broken() ==> {
                &&& r == Err::<char, StreamError>(StreamError::Utf8Error)
                &&& final(self).same_buffer(old(self))
            },
            old(self).exhausted() && !old(self).ended() && !old(self).broken() ==> {
                &&& streamer::is_least(
                    final(self).base(),
                    old(self).outstanding(),
                    old(self).forgettable(),
                )
                &&& old(self).base() <= final(self).base()
                &&& old(self).fills(final(self), without_char(r))
            },
            r == Err::<char, StreamError>(StreamError::BufferFull) <==> {
                &&& old(self).exhausted()
                &&& !old(self).ended()
                &&& !old(self).broken()
                &&& old(self).cursor() - final(self).base() + CHUNK_SIZE > old(self).room()
            },
            r == Err::<char, StreamError>(StreamError::BufferFull) ==> final(self).source()
                == old(self).source(),
    {
        let ghost before = *self;
        if self.cursor_pos == deque_len(&self.buffer) {
            let r = if self.eof {
                Err(StreamError::EndOfInput)
            } else if self.malformed {
                Err(StreamError::Utf8Error)
            } else {
                self.refill()
            };
            match r {
                Ok(()) => {},
                Err(error) => {
                    proof {
                        if before.eof {
                            before.lemma_text();
                        }
                        let filled = *self;
                        self.answers@ = self.answers@.push(Err(error));
                        assert(self.whole() == filled.whole());
                        assert(self.same_buffer(&filled));
                        self.lemma_wf();
                        before.lemma_wf();
                        if before@.end is None {
                            let base = self.base();
                            assert(before.buffered().skip(base - before.base()).len()
                                == before.cursor() - base);
                            assert(before@.full() <==> before.cursor() - base + CHUNK_SIZE
                                > before.room()) by {
                                if base != before.forgettable() {
                                    assert(before@.marks.count(base) > 0);
                                }
                            }
                        }
                    }
                    return Err(error);
                },
            }
        }
        Ok(self.take_char())
    }

    fn position(&self) -> (at: u64) {
        proof {
            self.lemma_wf();
        }
        self.offset + self.cursor_pos as u64
    }

    fn checkpoint(&mut self) -> (checkpoint: CheckPoint)
        ensures
            final(self).same_buffer(old(self)),
    {
        let at = self.position();
        self.checkpoints.insert(at)
    }

    fn release(&mut self, checkpoint: CheckPoint)
        ensures
            final(self).same_buffer(old(self)),
    {
        self.checkpoints.remove(checkpoint);
    }

    /// The character before the checkpoint can be gone back to if it is in the buffer.
    fn reset(&mut self, checkpoint: CheckPoint)
        ensures
            final(self).last_start() is Some <==> old(self).base() < checkpoint.position(),
            final(self).same_buffer(old(self)),
    {
        let ghost before = *self;
        let at = checkpoint.inner();
        let new_cursor_pos: usize = (at - self.offset) as usize;
        proof {
            self.lemma_window(new_cursor_pos as nat);
        }
        self.before_pos = if new_cursor_pos > 0 {
            let start: usize = previous_char(deque_slice(&self.buffer), new_cursor_pos);
            proof {
                self.lemma_window(start as nat);
            }
            Some(start)
        } else {
            None
        };
        self.cursor_pos = new_cursor_pos;
        self.checkpoints.remove(checkpoint);
        proof {
            assert(self.whole() == before.whole());
            self.lemma_wf();
        }
    }

    fn before(&mut self)
        ensures
            final(self).same_buffer(old(self)),
    {
        self.cursor_pos = self.before_pos.unwrap();
        self.before_pos = None;
    }

    fn range_from_to_checkpoint(
        &mut self,
        from: CheckPoint,
        to: CheckPoint,
    ) -> (range: Range<R>)
        ensures
            final(self).same_buffer(old(self)),
    {
        let range: Range<R> = Range(from, to, PhantomData);
        assert(range.start() == from.position());
        assert(range.end() == to.position());
        range
    }

    fn release_range(&mut self, range: Range<R>)
        ensures
            final(self).same_buffer(old(self)),
    {
        let Range(from, to, _) = range;
        self.checkpoints.remove(from);
        self.checkpoints.remove(to);
    }

    fn range_from_checkpoint(&mut self, checkpoint: CheckPoint) -> (range: Range<R>)
        ensures
            final(self).same_buffer(old(self)),
    {
        let to = self.checkpoint();
        self.range_from_to_checkpoint(checkpoint, to)
    }
}

/// A result of `next` without the character.
pub open spec fn without_char(r: Result<char, StreamError>) -> Result<(), StreamError> {
    match r {
        Ok(_) => Ok(()),
        Err(error) => Err(error),
    }
}

/// A range of the text of an `ElasticBufferStreamer`.
#[must_use]
pub struct Range<R: Source>(CheckPoint, CheckPoint, PhantomData<ElasticBufferStreamer<R>>);

impl<R: Source> Range<R> {
    /// The two checkpoints that delimit the range.
    pub fn into_checkpoints(self) -> (r: (CheckPoint, CheckPoint))
        ensures
            r.0.position() == self.start(),
            r.1.position() == self.end(),
    {
        let Range(from, to, _) = self;
        (from, to)
    }
}

impl<R: Source> StreamerRange for Range<R> {
    type Input = ElasticBufferStreamer<R>;

    closed spec fn start(&self) -> nat {
        self.0.position()
    }

    closed spec fn end(&self) -> nat {
        self.1.position()
    }

    open spec fn belongs(&self, input: &ElasticBufferStreamer<R>) -> bool {
        &&& input.sound()
        &&& self.start() <= self.end()
        &&& streamer::holds_both(input.outstanding(), self.start(), self.end())
    }

    open spec fn content(&self, input: &ElasticBufferStreamer<R>) -> Seq<u8> {
        input.delivers().text.subrange(self.start() as int, self.end() as int)
    }

    open spec fn given_back(
        &self,
        before: &ElasticBufferStreamer<R>,
        after: &ElasticBufferStreamer<R>,
    ) -> bool {
        &&& after.sound()
        &&& after.delivers() == before.delivers()
        &&& after.cursor() == before.cursor()
        &&& after.last_start() == before.last_start()
        &&& after.answered() == before.answered()
        &&& after.same_buffer(before)
        &&& after.outstanding() == before.outstanding().remove(self.start()).remove(self.end())
    }

    fn to_ref<'a>(self, input: &'a mut ElasticBufferStreamer<R>) -> (bytes: &'a [u8]) {
        let from: usize = (self.0.inner() - input.offset) as usize;
        let to: usize = (self.1.inner() - input.offset) as usize;
        proof {
            input.lemma_text();
        }
        input.checkpoints.remove(self.0);
        input.checkpoints.remove(self.1);
        let bytes = deque_slice(&input.buffer);
        assert(bytes@.subrange(from as int, to as int) =~= self.content(old(input)));
        vstd::slice::slice_subrange(bytes, from, to)
    }
}

} // verus!
