//! Decoding of UTF-8 bytes.
use crate::text;
use vstd::prelude::*;
use vstd::utf8::*;

verus! {

/// The most bytes that a character can lack its last byte with.
pub const MAX_INCOMPLETE: usize = 3;

/// Calls `std::str::from_utf8`, which gives the bytes back as a string if they are UTF-8, and
/// otherwise an error whose `valid_up_to` is the largest length up to which they are.
#[verifier::external_body]
fn check_utf8(bytes: &[u8]) -> (r: Result<&str, usize>)
    ensures
        r is Ok <==> valid_utf8(bytes@),
        r matches Ok(s) ==> encode_utf8(s@) == bytes@,
        r matches Err(n) ==> text::is_boundary(bytes@, n as nat) && forall|m: nat|
            n < m ==> !text::is_boundary(bytes@, m),
{
    std::str::from_utf8(bytes).map_err(|e| e.valid_up_to())
}

/// The number of bytes of the character whose first byte is `first`.
fn width_from_first(first: u8) -> (n: usize)
    ensures
        n == (if is_leading_byte_width_1(first) {
            1int
        } else if is_leading_byte_width_2(first) {
            2int
        } else if is_leading_byte_width_3(first) {
            3int
        } else {
            4int
        }),
{
    if first <= 0x7f {
        1
    } else if 0xc0 <= first && first <= 0xdf {
        2
    } else if 0xe0 <= first && first <= 0xef {
        3
    } else {
        4
    }
}

/// The character of `bytes` that starts at `at`, and the number of its bytes.
pub fn decode_char(bytes: &[u8], at: usize) -> (r: (char, usize))
    requires
        valid_utf8(bytes@),
        text::is_boundary(bytes@, at as nat),
        at < bytes@.len(),
    ensures
        r.0 == text::char_at(bytes@, at as nat),
        r.1 == text::width_at(bytes@, at as nat),
{
    let n: usize = width_from_first(bytes[at]);
    proof {
        text::lemma_boundary_skip(bytes@, at as nat);
        text::lemma_boundary_next(bytes@, at as nat);
        text::lemma_char_encoding(bytes@, at as nat);
    }
    let one = vstd::slice::slice_subrange(bytes, at, at + n);
    let ghost c = text::char_at(bytes@, at as nat);
    assert(one@ == encode_utf8(seq![c]));
    proof {
        encode_utf8_valid_utf8(seq![c]);
    }
    let s = check_utf8(one).unwrap();
    proof {
        encode_utf8_decode_utf8(s@);
        encode_utf8_decode_utf8(seq![c]);
        assert(s@ == seq![c]);
    }
    let mut chars = s.chars();
    (chars.next().unwrap(), n)
}

/// Where the character of `bytes` that ends at `at` starts.
pub fn previous_char(bytes: &[u8], at: usize) -> (start: usize)
    requires
        valid_utf8(bytes@),
        text::is_boundary(bytes@, at as nat),
        0 < at,
    ensures
        start < at,
        text::is_boundary(bytes@, start as nat),
        start + text::width_at(bytes@, start as nat) == at,
{
    proof {
        assert(bytes@.take(0) =~= Seq::<u8>::empty());
        text::lemma_boundary_skip(bytes@, 0);
        assert(bytes@.skip(0) =~= bytes@);
    }
    let mut start: usize = at - 1;
    while 0x80 <= bytes[start] && bytes[start] <= 0xbf
        invariant
            valid_first_scalar(bytes@),
            start < at <= bytes@.len(),
            forall|i: int| start < i < at ==> is_continuation_byte(#[trigger] bytes@[i]),
        decreases start,
    {
        start = start - 1;
    }
    proof {
        text::lemma_boundary_previous(bytes@, start as nat, at as nat);
    }
    start
}

/// How many bytes at the end of `bytes` do not complete a character: `None` says that there are
/// too many of them to be the beginning of one, so that `bytes` is malformed.
pub fn incomplete_len(bytes: &[u8]) -> (r: Option<usize>)
    ensures
        r matches Some(n) ==> n <= MAX_INCOMPLETE && n == bytes@.len() - text::valid_len(bytes@),
        r is None ==> bytes@.len() - text::valid_len(bytes@) > MAX_INCOMPLETE,
{
    proof {
        text::lemma_valid_len_bound(bytes@);
    }
    match check_utf8(bytes) {
        Ok(_) => {
            proof {
                text::lemma_valid_len_of_valid(bytes@);
            }
            Some(0)
        },
        Err(valid) => {
            proof {
                text::lemma_valid_len_max(bytes@, valid as nat);
                assert(text::is_boundary(bytes@, text::valid_len(bytes@)));
            }
            let invalid: usize = bytes.len() - valid;
            if invalid <= MAX_INCOMPLETE {
                Some(invalid)
            } else {
                None
            }
        },
    }
}

} // verus!
