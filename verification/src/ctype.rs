//! Byte classes.
use vstd::prelude::*;

verus! {

/// White space: tab, line feed, vertical tab, form feed, carriage return and space.
pub open spec fn is_space(c: u8) -> bool {
    9 <= c <= 13 || c == 32
}

/// The decimal digits.
pub open spec fn is_digit(c: u8) -> bool {
    48 <= c <= 57
}

/// The letters of the ASCII alphabet.
pub open spec fn is_alpha(c: u8) -> bool {
    65 <= c <= 90 || 97 <= c <= 122
}

/// ASCII punctuation.
pub open spec fn is_punct(c: u8) -> bool {
    33 <= c <= 47 || 58 <= c <= 64 || 91 <= c <= 96 || 123 <= c <= 126
}

/// The lower case form of an ASCII letter; any other byte as it is.
pub open spec fn lower(c: u8) -> u8 {
    if 65 <= c <= 90 {
        (c + 32) as u8
    } else {
        c
    }
}

pub fn isspace(c: u8) -> (r: bool)
    ensures
        r == is_space(c),
{
    (9 <= c && c <= 13) || c == 32
}

pub fn isdigit(c: u8) -> (r: bool)
    ensures
        r == is_digit(c),
{
    48 <= c && c <= 57
}

pub fn isalpha(c: u8) -> (r: bool)
    ensures
        r == is_alpha(c),
{
    (65 <= c && c <= 90) || (97 <= c && c <= 122)
}

pub fn ispunct(c: u8) -> (r: bool)
    ensures
        r == is_punct(c),
{
    (33 <= c && c <= 47) || (58 <= c && c <= 64) || (91 <= c && c <= 96) || (123 <= c && c <= 126)
}

pub fn to_lower(c: u8) -> (r: u8)
    ensures
        r == lower(c),
{
    if 65 <= c && c <= 90 {
        c + 32
    } else {
        c
    }
}

/// A graphic ASCII byte is a digit, a letter or punctuation, and only one of these. White space is
/// none of them, nor is any byte beyond ASCII.
pub proof fn law_byte_classes(c: u8)
    ensures
        is_punct(c) == (33 <= c <= 126 && !is_digit(c) && !is_alpha(c)),
        is_digit(c) ==> 33 <= c <= 126 && !is_alpha(c),
        is_alpha(c) ==> 33 <= c <= 126,
        is_space(c) ==> c < 33,
        is_space(c) == (c == 9 || c == 10 || c == 11 || c == 12 || c == 13 || c == 32),
        is_digit(c) == (0 <= c - 48 < 10),
        is_alpha(c) == (0 <= c - 65 < 26 || 0 <= c - 97 < 26),
{
}

/// The lower case form of a letter is 32 above that of its upper case form. It is a letter again,
/// and its own lower case form.
pub proof fn law_lower(c: u8)
    ensures
        65 <= c <= 90 ==> lower(c) == c + 32,
        !(65 <= c <= 90) ==> lower(c) == c,
        lower(lower(c)) == lower(c),
        is_alpha(lower(c)) == is_alpha(c),
{
}

} // verus!
