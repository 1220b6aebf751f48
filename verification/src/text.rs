//! Characters and strings: what the library needs of them and the verifier's library does
//! not describe.

use vstd::prelude::*;

verus! {

/// Whether `code` is the code point of a character: not a surrogate, and not beyond the last
/// code point.
pub open spec fn is_char_code(code: u32) -> bool {
    code <= 0xD7FF || 0xE000 <= code <= 0x10FFFF
}

/// `char::from_u32` of the standard library. Taken on trust: for the code point of a
/// character the result is that character, and for any other number it is `None`.
#[verifier::external_body]
pub(crate) fn char_from_code(code: u32) -> (c: Option<char>)
    ensures
        is_char_code(code) ==> c is Some && c->0 as u32 == code,
        !is_char_code(code) ==> c is None,
{
    char::from_u32(code)
}

/// `String::push` of the standard library. Taken on trust: the string is then what it was,
/// with `c` added at the end.
#[verifier::external_body]
pub(crate) fn push_char(text: &mut String, c: char)
    ensures
        final(text)@ == old(text)@.push(c),
{
    text.push(c)
}

} // verus!
