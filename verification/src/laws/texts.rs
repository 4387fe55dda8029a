//! What holds of text and of characters.
use crate::character;
use crate::decode;
use crate::text;
use vstd::prelude::*;
use vstd::utf8::*;

verus! {

/// In the encoding of several characters, each one stands where those before it end, takes the
/// bytes of its own encoding, and begins at a boundary.
pub proof fn law_characters_stand_in_order(chars: Seq<char>, i: int)
    requires
        0 <= i < chars.len(),
    ensures
        ({
            let text = encode_utf8(chars);
            let at = encode_utf8(chars.take(i)).len();
            &&& text::is_boundary(text, at)
            &&& at < text.len()
            &&& text::char_at(text, at) == chars[i]
            &&& text::width_at(text, at) == encode_utf8(seq![chars[i]]).len()
            &&& text::spells(text, at, at + text::width_at(text, at), seq![chars[i]])
        }),
{
    let text = encode_utf8(chars);
    let head = encode_utf8(chars.take(i));
    text::lemma_encode_concat(chars.take(i), chars.skip(i));
    assert(chars.take(i) + chars.skip(i) =~= chars);
    encode_utf8_valid_utf8(chars);
    encode_utf8_valid_utf8(chars.take(i));
    assert(text.take(head.len() as int) =~= head);
    assert(text.subrange(0, text.len() as int) =~= text);
    assert(text.subrange(0, head.len() as int) =~= head);
    text::lemma_spells_char(text, 0, head.len(), text.len(), chars, i);
    text::lemma_char_encoding(text, head.len());
}

/// The positions between characters are those up to which the bytes are UTF-8.
pub proof fn law_boundaries_end_sound_text(bytes: Seq<u8>, at: nat)
    ensures
        text::is_boundary(bytes, at) <==> at <= bytes.len() && valid_utf8(bytes.take(at as int)),
        valid_utf8(bytes) && text::is_boundary(bytes, at) ==> valid_utf8(bytes.skip(at as int)),
{
    if valid_utf8(bytes) && text::is_boundary(bytes, at) {
        text::lemma_boundary_skip(bytes, at);
    }
}

/// Bytes spell a word between two positions exactly if the word is what they decode to.
pub proof fn law_words_are_spelled(text: Seq<u8>, from: nat, to: nat, word: Seq<char>)
    ensures
        text::spells(text, from, to, word) <==> {
            &&& from <= to <= text.len()
            &&& valid_utf8(text.subrange(from as int, to as int))
            &&& decode_utf8(text.subrange(from as int, to as int)) == word
        },
{
    let bytes = text.subrange(from as int, to as int);
    encode_utf8_valid_utf8(word);
    encode_utf8_decode_utf8(word);
    if valid_utf8(bytes) {
        decode_utf8_encode_utf8(bytes);
    }
}

/// The well-formed prefix of some bytes is well-formed, and no longer one is.
pub proof fn law_valid_prefix_is_longest(bytes: Seq<u8>, n: nat)
    ensures
        text::valid_len(bytes) <= bytes.len(),
        text::valid_prefix(bytes) == bytes.take(text::valid_len(bytes) as int),
        valid_utf8(bytes.take(text::valid_len(bytes) as int)),
        n <= bytes.len() && valid_utf8(bytes.take(n as int)) ==> n <= text::valid_len(bytes),
{
    text::lemma_valid_len_bound(bytes);
    if n <= bytes.len() && valid_utf8(bytes.take(n as int)) {
        text::lemma_valid_len_max(bytes, n);
    }
}

/// The character that is decoded is the one whose encoding stands there.
pub proof fn law_character_is_decoded(bytes: &[u8], at: usize, r: (char, usize))
    requires
        valid_utf8(bytes@),
        at < bytes@.len(),
        valid_utf8(bytes@.take(at as int)),
        call_ensures(decode::decode_char, (bytes, at), r),
    ensures
        0 < r.1 <= bytes@.len() - at,
        bytes@.subrange(at as int, at + r.1) == encode_utf8(seq![r.0]),
{
    text::lemma_char_encoding(bytes@, at as nat);
    text::lemma_boundary_next(bytes@, at as nat);
}

/// The previous character is the one whose encoding ends there.
pub proof fn law_previous_character_is_found(bytes: &[u8], at: usize, start: usize)
    requires
        valid_utf8(bytes@),
        0 < at <= bytes@.len(),
        valid_utf8(bytes@.take(at as int)),
        call_ensures(decode::previous_char, (bytes, at), start),
    ensures
        start < at,
        valid_utf8(bytes@.take(start as int)),
        exists|c: char|
            bytes@.subrange(start as int, at as int) == #[trigger] encode_utf8(seq![c]),
{
    text::lemma_char_encoding(bytes@, start as nat);
}

/// The number of incomplete bytes is how many follow the longest well-formed prefix. There are too
/// many of them if there are more than three.
pub proof fn law_incomplete_bytes_are_counted(bytes: &[u8], r: Option<usize>, n: nat)
    requires
        call_ensures(decode::incomplete_len, (bytes,), r),
    ensures
        match r {
            Some(rest) => {
                &&& rest <= 3
                &&& rest <= bytes@.len()
                &&& valid_utf8(bytes@.take(bytes@.len() - rest))
                &&& n <= bytes@.len() && valid_utf8(bytes@.take(n as int)) ==> n <= bytes@.len()
                    - rest
            },
            None => n <= bytes@.len() && valid_utf8(bytes@.take(n as int)) ==> bytes@.len() - n > 3,
        },
{
    law_valid_prefix_is_longest(bytes@, n);
}

/// The digits and the white space of ASCII.
pub proof fn law_classes_are_those_of_ascii(c: char, digit: bool, space: bool)
    requires
        call_ensures(character::is_ascii_digit, (c,), digit),
        call_ensures(character::is_ascii_whitespace, (c,), space),
    ensures
        digit <==> 48 <= c as u32 <= 57,
        space <==> (c as u32 == 9 || c as u32 == 10 || c as u32 == 12 || c as u32 == 13 || c as u32
            == 32),
        character::ascii_digit(c) == digit,
        character::ascii_whitespace(c) == space,
{
}

/// A character is found among others exactly if it is one of them.
pub proof fn law_characters_are_found(chars: &Vec<char>, c: char, b: bool)
    requires
        call_ensures(character::contains, (chars, c), b),
    ensures
        b <==> exists|i: int| 0 <= i < chars@.len() && #[trigger] chars@[i] == c,
{
}

} // verus!
