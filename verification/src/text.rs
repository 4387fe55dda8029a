//! UTF-8 text as a sequence of bytes: which positions stand between two characters, which
//! character stands at a position, and how far a sequence of bytes is well-formed.
use vstd::prelude::*;
use vstd::utf8::*;

verus! {

/// The length of the longest well-formed prefix of `bytes`.
pub open spec fn valid_len(bytes: Seq<u8>) -> nat
    decreases bytes.len(),
{
    if valid_first_scalar(bytes) {
        (length_of_first_scalar(bytes) + valid_len(pop_first_scalar(bytes))) as nat
    } else {
        0
    }
}

/// The longest well-formed prefix of `bytes`.
pub open spec fn valid_prefix(bytes: Seq<u8>) -> Seq<u8> {
    bytes.take(valid_len(bytes) as int)
}

/// Whether `at` is a position of `text` that stands between two characters, or at one of its ends.
pub open spec fn is_boundary(text: Seq<u8>, at: nat) -> bool {
    at <= text.len() && valid_utf8(text.take(at as int))
}

/// The character of `text` that starts at `at`.
pub open spec fn char_at(text: Seq<u8>, at: nat) -> char {
    decode_first_scalar(text.skip(at as int)) as char
}

/// The number of bytes of the character of `text` that starts at `at`.
pub open spec fn width_at(text: Seq<u8>, at: nat) -> nat {
    length_of_first_scalar(text.skip(at as int)) as nat
}

/// Whether `text` holds the characters `word` between `from` and `to`.
pub open spec fn spells(text: Seq<u8>, from: nat, to: nat, word: Seq<char>) -> bool {
    from <= to <= text.len() && text.subrange(from as int, to as int) == encode_utf8(word)
}

/// The longest well-formed prefix is a well-formed prefix.
pub proof fn lemma_valid_len_bound(bytes: Seq<u8>)
    ensures
        valid_len(bytes) <= bytes.len(),
        valid_utf8(valid_prefix(bytes)),
    decreases bytes.len(),
{
    if valid_first_scalar(bytes) {
        let n = length_of_first_scalar(bytes);
        let rest = pop_first_scalar(bytes);
        lemma_valid_len_bound(rest);
        let prefix = valid_prefix(bytes);
        assert(prefix.len() == n + valid_len(rest));
        assert(valid_first_scalar(prefix));
        assert(pop_first_scalar(prefix) =~= valid_prefix(rest));
    } else {
        assert(valid_prefix(bytes).len() == 0);
    }
}

/// A well-formed sequence of bytes is its own longest well-formed prefix.
pub proof fn lemma_valid_len_of_valid(bytes: Seq<u8>)
    requires
        valid_utf8(bytes),
    ensures
        valid_len(bytes) == bytes.len(),
        valid_prefix(bytes) == bytes,
    decreases bytes.len(),
{
    if bytes.len() > 0 {
        lemma_valid_len_of_valid(pop_first_scalar(bytes));
    }
    assert(valid_prefix(bytes) =~= bytes);
}

/// What follows a well-formed sequence does not change how it is read.
pub proof fn lemma_valid_len_concat(head: Seq<u8>, tail: Seq<u8>)
    requires
        valid_utf8(head),
    ensures
        valid_len(head + tail) == head.len() + valid_len(tail),
        valid_prefix(head + tail) == head + valid_prefix(tail),
    decreases head.len(),
{
    lemma_valid_len_bound(tail);
    if head.len() == 0 {
        assert(head + tail =~= tail);
    } else {
        let rest = pop_first_scalar(head);
        lemma_valid_len_concat(rest, tail);
        assert(pop_first_scalar(head + tail) =~= rest + tail);
    }
    assert(valid_prefix(head + tail) =~= head + valid_prefix(tail));
}

/// After the longest well-formed prefix no character follows.
pub proof fn lemma_valid_len_rest(bytes: Seq<u8>)
    ensures
        valid_len(bytes.skip(valid_len(bytes) as int)) == 0,
{
    lemma_valid_len_bound(bytes);
    let head = valid_prefix(bytes);
    let tail = bytes.skip(valid_len(bytes) as int);
    lemma_valid_len_concat(head, tail);
    assert(head + tail =~= bytes);
}

/// Four bytes that do not begin with a character do not begin with one whatever follows.
pub proof fn lemma_malformed(bytes: Seq<u8>, more: Seq<u8>)
    requires
        valid_len(bytes) == 0,
        bytes.len() >= 4,
    ensures
        valid_len(bytes + more) == 0,
{
    if valid_first_scalar(bytes + more) {
        assert(valid_first_scalar(bytes));
    }
}

/// No well-formed prefix is longer than the longest one.
pub proof fn lemma_valid_len_max(bytes: Seq<u8>, n: nat)
    requires
        is_boundary(bytes, n),
    ensures
        n <= valid_len(bytes),
{
    let head = bytes.take(n as int);
    let tail = bytes.skip(n as int);
    lemma_valid_len_concat(head, tail);
    assert(head + tail =~= bytes);
}

/// After a boundary of a well-formed text the text goes on well-formed.
pub proof fn lemma_boundary_skip(text: Seq<u8>, at: nat)
    requires
        valid_utf8(text),
        is_boundary(text, at),
    ensures
        valid_utf8(text.skip(at as int)),
        at < text.len() ==> valid_first_scalar(text.skip(at as int)),
{
    assert(text.subrange(0, at as int) =~= text.take(at as int));
    assert(text.subrange(at as int, text.len() as int) =~= text.skip(at as int));
    if !valid_utf8(text.skip(at as int)) {
        partial_valid_partial_invalid_utf8(text, at as int);
    }
}

/// The end of the character that starts at a boundary is a boundary.
pub proof fn lemma_boundary_next(text: Seq<u8>, at: nat)
    requires
        valid_utf8(text),
        is_boundary(text, at),
        at < text.len(),
    ensures
        1 <= width_at(text, at) <= 4,
        is_boundary(text, at + width_at(text, at)),
{
    lemma_boundary_skip(text, at);
    let rest = text.skip(at as int);
    let n = width_at(text, at);
    assert(text.subrange(0, at as int) =~= text.take(at as int));
    assert(text.subrange(at as int, text.len() as int) =~= rest);
    assert(partial_valid_utf8(text, at as int));
    partial_valid_utf8_extend(text, at as int);
    assert(text.subrange(0, (at + n) as int) =~= text.take((at + n) as int));
}

/// The last character before a boundary starts at the last byte before it that does not continue a
/// character.
pub proof fn lemma_boundary_previous(text: Seq<u8>, start: nat, at: nat)
    requires
        valid_utf8(text),
        is_boundary(text, at),
        start < at,
        !is_continuation_byte(text[start as int]),
        forall|i: int| start < i < at ==> is_continuation_byte(#[trigger] text[i]),
    ensures
        is_boundary(text, start),
        start + width_at(text, start) == at,
{
    is_char_boundary_iff_not_is_continuation_byte(text, start as int);
    valid_utf8_split(text, start as int);
    assert(text.subrange(0, start as int) =~= text.take(start as int));
    let head = text.take(at as int);
    let tail = text.skip(at as int);
    assert(head + tail =~= text);
    assert(head.take(start as int) =~= text.take(start as int));
    lemma_char_extend(head, tail, start);
    lemma_boundary_next(head, start);
    lemma_boundary_next(text, start);
    let end = start + width_at(text, start);
    if end < at {
        lemma_boundary_skip(text, end);
        assert(text.skip(end as int)[0] == text[end as int]);
        assert(is_continuation_byte(text[end as int]));
    }
}

/// The character at a position does not depend on what follows the text.
pub proof fn lemma_char_extend(head: Seq<u8>, tail: Seq<u8>, at: nat)
    requires
        valid_utf8(head),
        is_boundary(head, at),
        at < head.len(),
    ensures
        char_at(head + tail, at) == char_at(head, at),
        width_at(head + tail, at) == width_at(head, at),
{
    lemma_boundary_skip(head, at);
    assert((head + tail).skip(at as int) =~= head.skip(at as int) + tail);
}

/// The character at a position does not depend on what precedes it.
pub proof fn lemma_char_shift(head: Seq<u8>, tail: Seq<u8>, at: nat)
    requires
        at <= tail.len(),
    ensures
        char_at(head + tail, head.len() + at) == char_at(tail, at),
        width_at(head + tail, head.len() + at) == width_at(tail, at),
{
    assert((head + tail).skip((head.len() + at) as int) =~= tail.skip(at as int));
}

/// A character and its bytes determine each other.
pub proof fn lemma_char_encoding(text: Seq<u8>, at: nat)
    requires
        valid_utf8(text),
        is_boundary(text, at),
        at < text.len(),
    ensures
        text.subrange(at as int, (at + width_at(text, at)) as int) == encode_utf8(
            seq![char_at(text, at)],
        ),
        width_at(text, at) == encode_utf8(seq![char_at(text, at)]).len(),
        at + width_at(text, at) <= text.len(),
{
    lemma_boundary_skip(text, at);
    let rest = text.skip(at as int);
    let c = char_at(text, at);
    decode_utf8_first_scalar(rest);
    let one = seq![c];
    assert(one.drop_first() =~= Seq::<char>::empty());
    reveal_with_fuel(encode_utf8, 2);
    assert(encode_utf8(one) =~= encode_scalar(c as u32));
    assert(text.subrange(at as int, (at + width_at(text, at)) as int) =~= take_first_scalar(rest));
}

/// The encoding of two words in a row.
pub proof fn lemma_encode_concat(a: Seq<char>, b: Seq<char>)
    ensures
        encode_utf8(a + b) == encode_utf8(a) + encode_utf8(b),
    decreases a.len(),
{
    if a.len() == 0 {
        assert(a + b =~= b);
        assert(encode_utf8(a + b) =~= encode_utf8(a) + encode_utf8(b));
    } else {
        assert((a + b).drop_first() =~= a.drop_first() + b);
        lemma_encode_concat(a.drop_first(), b);
        assert(encode_utf8(a + b) =~= encode_utf8(a) + encode_utf8(b));
    }
}

/// One more character after a word.
pub proof fn lemma_spells_push(text: Seq<u8>, from: nat, to: nat, word: Seq<char>)
    requires
        valid_utf8(text),
        spells(text, from, to, word),
        is_boundary(text, to),
        to < text.len(),
    ensures
        spells(text, from, to + width_at(text, to), word.push(char_at(text, to))),
{
    lemma_char_encoding(text, to);
    let c = char_at(text, to);
    lemma_encode_concat(word, seq![c]);
    assert(word + seq![c] =~= word.push(c));
    let next = (to + width_at(text, to)) as int;
    assert(text.subrange(from as int, next) =~= text.subrange(from as int, to as int)
        + text.subrange(to as int, next));
}

/// Where a text holds a word, each character of the word follows those before it.
pub proof fn lemma_spells_char(
    text: Seq<u8>,
    from: nat,
    at: nat,
    to: nat,
    word: Seq<char>,
    n: int,
)
    requires
        0 <= n < word.len(),
        spells(text, from, to, word),
        spells(text, from, at, word.take(n)),
    ensures
        at < text.len(),
        char_at(text, at) == word[n],
{
    let rest = word.skip(n);
    lemma_encode_concat(word.take(n), rest);
    assert(word.take(n) + rest =~= word);
    let tail = text.subrange(at as int, to as int);
    assert(text.subrange(from as int, to as int) =~= text.subrange(from as int, at as int) + tail);
    assert(tail =~= text.subrange(from as int, to as int).skip((at - from) as int));
    assert(encode_utf8(rest) =~= encode_utf8(word).skip((at - from) as int));
    encode_utf8_first_scalar(rest);
    let beyond = text.skip(to as int);
    assert(text.skip(at as int) =~= tail + beyond);
    assert(valid_first_scalar(tail));
    assert(decode_first_scalar(tail + beyond) == decode_first_scalar(tail));
    char_u32_cast(word[n], word[n] as u32);
}

} // verus!
