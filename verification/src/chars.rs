//! Character classes of the standard library.
//!
//! Whitespace is the `White_Space` property of Unicode, which is a short list
//! of code points and is written out here. Which code points are alphabetic or
//! numeric is a matter of long tables: within ASCII these are the letters and
//! the digits, and beyond ASCII each class gets a name, of which nothing more
//! is claimed.

use vstd::prelude::*;

verus! {

/// Whether `c` is an ASCII character.
pub open spec fn ascii(c: char) -> bool {
    (c as u32) < 0x80
}

/// The ASCII letters, `A` to `Z` and `a` to `z`.
pub open spec fn ascii_letter(c: char) -> bool {
    ('A' <= c && c <= 'Z') || ('a' <= c && c <= 'z')
}

/// The ASCII digits, `0` to `9`.
pub open spec fn ascii_digit(c: char) -> bool {
    '0' <= c && c <= '9'
}

/// Whether `c` is whitespace: one of the code points that have the property
/// `White_Space`. These are the controls from tab to carriage return, the
/// space, the next-line control, the no-break space, the Ogham space mark, the
/// spaces from en quad to hair space, the line and the paragraph separator,
/// the narrow no-break space, the medium mathematical space and the
/// ideographic space.
pub open spec fn whitespace(c: char) -> bool {
    let code = c as u32;
    ||| 0x09 <= code <= 0x0D
    ||| code == 0x20
    ||| code == 0x85
    ||| code == 0xA0
    ||| code == 0x1680
    ||| 0x2000 <= code <= 0x200A
    ||| code == 0x2028
    ||| code == 0x2029
    ||| code == 0x202F
    ||| code == 0x205F
    ||| code == 0x3000
}

/// Whether `char::is_alphanumeric` holds of `c`, a character beyond ASCII.
pub uninterp spec fn unicode_alphanumeric(c: char) -> bool;

/// Whether `char::is_numeric` holds of `c`, a character beyond ASCII.
pub uninterp spec fn unicode_numeric(c: char) -> bool;

/// Whether `c` is alphanumeric: within ASCII a letter or a digit, and beyond
/// ASCII what the tables of the standard library say.
pub open spec fn alphanumeric(c: char) -> bool {
    if ascii(c) {
        ascii_letter(c) || ascii_digit(c)
    } else {
        unicode_alphanumeric(c)
    }
}

/// Whether `c` is numeric: within ASCII a digit, and beyond ASCII what the
/// tables of the standard library say.
pub open spec fn numeric(c: char) -> bool {
    if ascii(c) {
        ascii_digit(c)
    } else {
        unicode_numeric(c)
    }
}

/// `char::is_whitespace` tells whether the code point has the property
/// `White_Space` of the Unicode Character Database. The contract writes the
/// code points of that property out, as [`whitespace`] lists them.
pub assume_specification[ char::is_whitespace ](c: char) -> (b: bool)
    ensures
        b == whitespace(c),
;

/// `char::is_alphanumeric` tells whether the code point is alphabetic or
/// numeric. Within ASCII the alphabetic code points are the letters and the
/// numeric ones the digits, and the contract says so. Beyond ASCII the result
/// depends on the code point alone and is given the name
/// [`unicode_alphanumeric`]; nothing else is claimed of it.
pub assume_specification[ char::is_alphanumeric ](c: char) -> (b: bool)
    ensures
        b == alphanumeric(c),
        !ascii(c) ==> b == unicode_alphanumeric(c),
;

/// `char::is_numeric` tells whether the code point is in one of the general
/// categories for numbers. Within ASCII these are the digits, and the contract
/// says so. Beyond ASCII the result depends on the code point alone and is
/// given the name [`unicode_numeric`]; nothing else is claimed of it.
pub assume_specification[ char::is_numeric ](c: char) -> (b: bool)
    ensures
        b == numeric(c),
        !ascii(c) ==> b == unicode_numeric(c),
;

/// Tells whether `c` is an ASCII letter.
pub fn is_ascii_letter(c: char) -> (b: bool)
    ensures
        b == ascii_letter(c),
{
    ('A' <= c && c <= 'Z') || ('a' <= c && c <= 'z')
}

/// Tells whether `c` is an ASCII digit.
pub fn is_ascii_digit(c: char) -> (b: bool)
    ensures
        b == ascii_digit(c),
{
    '0' <= c && c <= '9'
}

} // verus!
