//! Classes of characters.
use vstd::prelude::*;

verus! {

/// Whether a character is alphabetic in the sense of the Unicode standard.
pub uninterp spec fn alphabetic(c: char) -> bool;

/// Whether a character is alphabetic or numeric in the sense of the Unicode standard.
pub uninterp spec fn alphanumeric(c: char) -> bool;

/// Whether a character is a digit of ASCII.
pub open spec fn ascii_digit(c: char) -> bool {
    '0' <= c <= '9'
}

/// Whether a character is white space of ASCII: a space, a tab, a line feed, a form feed or a
/// carriage return.
pub open spec fn ascii_whitespace(c: char) -> bool {
    c == ' ' || c == '\t' || c == '\n' || c == '\x0c' || c == '\r'
}

/// Calls `char::is_alphabetic`, which looks the character up in a table of the Unicode standard:
/// the contract only says that the answer is a function of the character.
#[verifier::external_body]
pub(crate) fn is_alphabetic(c: char) -> (b: bool)
    ensures
        b == alphabetic(c),
{
    c.is_alphabetic()
}

/// Calls `char::is_alphanumeric`, which looks the character up in tables of the Unicode standard:
/// the contract says that the answer is a function of the character, and that it is yes for an
/// alphabetic one.
#[verifier::external_body]
pub(crate) fn is_alphanumeric(c: char) -> (b: bool)
    ensures
        b == alphanumeric(c),
        alphabetic(c) ==> b,
{
    c.is_alphanumeric()
}

/// Whether a character is a digit of ASCII.
pub fn is_ascii_digit(c: char) -> (b: bool)
    ensures
        b == ascii_digit(c),
{
    '0' <= c && c <= '9'
}

/// Whether a character is white space of ASCII.
pub fn is_ascii_whitespace(c: char) -> (b: bool)
    ensures
        b == ascii_whitespace(c),
{
    c == ' ' || c == '\t' || c == '\n' || c == '\x0c' || c == '\r'
}

/// Whether `c` is one of `chars`.
pub fn contains(chars: &Vec<char>, c: char) -> (b: bool)
    ensures
        b == chars@.contains(c),
{
    let mut i: usize = 0;
    while i < chars.len()
        invariant
            i <= chars@.len(),
            forall|j: int| 0 <= j < i ==> chars@[j] != c,
        decreases chars@.len() - i,
    {
        if chars[i] == c {
            return true;
        }
        i = i + 1;
    }
    false
}

} // verus!
