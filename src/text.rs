//! The few std operations on `char` and `String` that the library relies on.
use vstd::prelude::*;

verus! {

/// Whether `v` is a Unicode scalar value: a code point that is not a surrogate.
pub open spec fn is_scalar(v: u32) -> bool {
    v < 0xD800 || (0xE000 <= v && v <= 0x10FFFF)
}

/// Relies on `String::push`: appends one character at the end.
#[verifier::external_body]
pub(crate) fn push_char(s: &mut String, c: char)
    ensures
        final(s)@ == old(s)@.push(c),
{
    s.push(c)
}

/// Relies on `String::push_str`: appends the characters of `t` at the end.
#[verifier::external_body]
pub(crate) fn push_str(s: &mut String, t: &str)
    ensures
        final(s)@ == old(s)@ + t@,
{
    s.push_str(t)
}

/// Relies on `char::from_u32`: `Some` exactly for Unicode scalar values,
/// holding the character with that value.
#[verifier::external_body]
pub(crate) fn char_of_scalar(v: u32) -> (r: Option<char>)
    ensures
        r.is_some() == is_scalar(v),
        r.is_some() ==> r.unwrap() == v as char,
{
    char::from_u32(v)
}

/// The character whose value is the byte `b` (U+0000 to U+00FF).
pub open spec fn byte_char(b: u8) -> char {
    b as char
}

pub fn char_of_byte(b: u8) -> (r: char)
    ensures
        r == byte_char(b),
{
    b as char
}

} // verus!
