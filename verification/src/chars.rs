//! Classes of characters.
//!
//! What a character of ASCII is, is spelled out here. Of any other character
//! the standard library is asked; what it answers is named here, not stated.
use vstd::prelude::*;

verus! {

/// What `char::is_alphabetic` answers for `c`: whether Unicode calls it
/// alphabetic.
pub uninterp spec fn unicode_alphabetic(c: char) -> bool;

/// What `char::is_numeric` answers for `c`: whether Unicode calls it a
/// number.
pub uninterp spec fn unicode_numeric(c: char) -> bool;

/// What `char::is_whitespace` answers for `c`: whether Unicode calls it
/// white space.
pub uninterp spec fn unicode_whitespace(c: char) -> bool;

/// `char::is_alphabetic` of the standard library. Nothing is claimed of its
/// result but that it depends on the character alone.
pub assume_specification[ char::is_alphabetic ](c: char) -> (r: bool)
    ensures
        r == unicode_alphabetic(c),
;

/// `char::is_numeric` of the standard library. Nothing is claimed of its
/// result but that it depends on the character alone.
pub assume_specification[ char::is_numeric ](c: char) -> (r: bool)
    ensures
        r == unicode_numeric(c),
;

/// `char::is_whitespace` of the standard library. Nothing is claimed of its
/// result but that it depends on the character alone.
pub assume_specification[ char::is_whitespace ](c: char) -> (r: bool)
    ensures
        r == unicode_whitespace(c),
;

/// One of the 128 characters of ASCII.
pub open spec fn is_ascii(c: char) -> bool {
    (c as u32) < 0x80
}

/// One of the ten ASCII digits.
pub open spec fn is_digit(c: char) -> bool {
    '0' <= c <= '9'
}

/// An ASCII letter.
pub open spec fn is_letter(c: char) -> bool {
    'a' <= c <= 'z' || 'A' <= c <= 'Z'
}

/// White space: in ASCII the space and the characters from the tabulator to
/// the carriage return, the line feed among them; beyond ASCII what Unicode
/// calls so.
pub open spec fn is_space(c: char) -> bool {
    if is_ascii(c) {
        c == ' ' || '\t' <= c <= '\r'
    } else {
        unicode_whitespace(c)
    }
}

/// A letter: in ASCII one of `a` to `z` and `A` to `Z`; beyond ASCII what
/// Unicode calls alphabetic.
pub open spec fn is_alpha(c: char) -> bool {
    if is_ascii(c) {
        is_letter(c)
    } else {
        unicode_alphabetic(c)
    }
}

/// A digit or another number: in ASCII one of `0` to `9`; beyond ASCII what
/// Unicode calls numeric.
pub open spec fn is_number(c: char) -> bool {
    if is_ascii(c) {
        is_digit(c)
    } else {
        unicode_numeric(c)
    }
}

/// A character that separates tokens and belongs to none: a line feed, a
/// carriage return or any other white space.
pub open spec fn is_blank(c: char) -> bool {
    c == '\n' || c == '\r' || is_space(c)
}

/// A character of a dollar-quote tag or of a parameter's name: an ASCII
/// letter, an ASCII digit or an underscore.
pub open spec fn is_name_char(c: char) -> bool {
    is_letter(c) || is_digit(c) || c == '_'
}

/// A character that may follow the first one of an identifier or keyword: a
/// letter or a digit of any script, an underscore or a dollar sign.
pub open spec fn is_word_char(c: char) -> bool {
    is_alpha(c) || is_number(c) || c == '_' || c == '$'
}

/// The upper-case form of an ASCII letter; any other character unchanged.
pub open spec fn ascii_upper(c: char) -> char {
    if 'a' <= c <= 'z' {
        ((c as u8) - 32) as char
    } else {
        c
    }
}

#[verifier::when_used_as_spec(is_digit)]
pub fn digit(c: char) -> (r: bool)
    ensures
        r == is_digit(c),
{
    '0' <= c && c <= '9'
}

#[verifier::when_used_as_spec(is_letter)]
pub fn letter(c: char) -> (r: bool)
    ensures
        r == is_letter(c),
{
    ('a' <= c && c <= 'z') || ('A' <= c && c <= 'Z')
}

#[verifier::when_used_as_spec(is_name_char)]
pub fn name_char(c: char) -> (r: bool)
    ensures
        r == is_name_char(c),
{
    letter(c) || digit(c) || c == '_'
}

#[verifier::when_used_as_spec(is_space)]
pub fn space(c: char) -> (r: bool)
    ensures
        r == is_space(c),
{
    if (c as u32) < 0x80 {
        c == ' ' || ('\t' <= c && c <= '\r')
    } else {
        c.is_whitespace()
    }
}

#[verifier::when_used_as_spec(is_alpha)]
pub fn alpha(c: char) -> (r: bool)
    ensures
        r == is_alpha(c),
{
    if (c as u32) < 0x80 {
        letter(c)
    } else {
        c.is_alphabetic()
    }
}

#[verifier::when_used_as_spec(is_number)]
pub fn number(c: char) -> (r: bool)
    ensures
        r == is_number(c),
{
    if (c as u32) < 0x80 {
        digit(c)
    } else {
        c.is_numeric()
    }
}

#[verifier::when_used_as_spec(is_word_char)]
pub fn word_char(c: char) -> (r: bool)
    ensures
        r == is_word_char(c),
{
    alpha(c) || number(c) || c == '_' || c == '$'
}

#[verifier::when_used_as_spec(is_blank)]
pub fn blank(c: char) -> (r: bool)
    ensures
        r == is_blank(c),
{
    c == '\n' || c == '\r' || space(c)
}

/// The upper-case form of an ASCII letter; any other character unchanged.
pub fn to_ascii_upper(c: char) -> (r: char)
    ensures
        r == ascii_upper(c),
{
    if 'a' <= c && c <= 'z' {
        let b: u8 = c as u8;
        (b - 32) as char
    } else {
        c
    }
}

} // verus!
