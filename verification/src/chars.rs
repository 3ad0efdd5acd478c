//! Classes of chars that the motions read.

use vstd::prelude::*;

verus! {

/// The chars with the Unicode `White_Space` property, which
/// `char::is_whitespace` tests for.
pub open spec fn is_white(c: char) -> bool {
    let v = c as u32;
    ||| 0x09 <= v <= 0x0D
    ||| v == 0x20
    ||| v == 0x85
    ||| v == 0xA0
    ||| v == 0x1680
    ||| 0x2000 <= v <= 0x200A
    ||| v == 0x2028
    ||| v == 0x2029
    ||| v == 0x202F
    ||| v == 0x205F
    ||| v == 0x3000
}

/// Whether `c` is white space (the same answer as `char::is_whitespace`).
pub fn is_whitespace(c: char) -> (r: bool)
    ensures
        r == is_white(c),
{
    let v = c as u32;
    (0x09 <= v && v <= 0x0D) || v == 0x20 || v == 0x85 || v == 0xA0 || v == 0x1680 || (0x2000 <= v
        && v <= 0x200A) || v == 0x2028 || v == 0x2029 || v == 0x202F || v == 0x205F || v == 0x3000
}

/// What `char::is_alphanumeric` answers for `c` (the Unicode `Alphabetic`
/// property or a numeric general category).
pub uninterp spec fn alphanumeric(c: char) -> bool;

/// `char::is_alphanumeric`: its answer is a function of the char alone.
#[verifier::external_body]
fn char_is_alphanumeric(c: char) -> (r: bool)
    ensures
        r == alphanumeric(c),
{
    c.is_alphanumeric()
}

/// A char that belongs to a word: alphanumeric or `_`.
pub open spec fn is_word(c: char) -> bool {
    alphanumeric(c) || c == '_'
}

/// Whether `c` belongs to a word (alphanumeric or `_`).
pub fn is_word_char(c: char) -> (r: bool)
    ensures
        r == is_word(c),
{
    char_is_alphanumeric(c) || c == '_'
}

/// The decimal digit that `c` stands for, if it is one of `0`..`9`
/// (`char::to_digit(10)`).
pub open spec fn digit_value(c: char) -> Option<u32> {
    if '0' <= c <= '9' {
        Some((c as u32 - '0' as u32) as u32)
    } else {
        None
    }
}

/// The value of `c` as a decimal digit, as `char::to_digit(10)` gives it.
pub fn to_digit(c: char) -> (r: Option<u32>)
    ensures
        r == digit_value(c),
{
    if '0' <= c && c <= '9' {
        Some(c as u32 - '0' as u32)
    } else {
        None
    }
}

/// Whether `c` is one of `A`..`Z`.
pub open spec fn is_ascii_upper(c: char) -> bool {
    'A' <= c <= 'Z'
}

/// The upper-case form of `c` when `c` is one of `a`..`z`; `c` otherwise.
pub open spec fn ascii_upper(c: char) -> char {
    if 'a' <= c <= 'z' {
        ((c as u32) - 32) as char
    } else {
        c
    }
}

} // verus!
