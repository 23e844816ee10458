//! Character classes of the source language.

use vstd::prelude::*;

verus! {

/// Horizontal tab, one of the two blanks.
pub const TAB: char = '\t';

/// Line feed, which ends a top-level statement.
pub const NEW_LINE: char = '\n';

/// Space, the other blank.
pub const SPACE: char = ' ';

/// The classes of characters that the scanner consumes in runs.
pub enum Class {
    /// Tabs and spaces.
    White,
    /// Decimal digits.
    Digit,
    /// Letters and decimal digits.
    Alnum,
}

pub open spec fn is_white_char(c: char) -> bool {
    c == '\t' || c == ' '
}

pub open spec fn is_addop_char(c: char) -> bool {
    c == '+' || c == '-'
}

pub open spec fn is_mulop_char(c: char) -> bool {
    c == '*' || c == '/'
}

pub open spec fn is_digit_char(c: char) -> bool {
    '0' <= c <= '9'
}

pub open spec fn is_alpha_char(c: char) -> bool {
    'a' <= c <= 'z' || 'A' <= c <= 'Z'
}

pub open spec fn is_alnum_char(c: char) -> bool {
    is_alpha_char(c) || is_digit_char(c)
}

/// Whether `c` belongs to `class`.
pub open spec fn in_class(c: char, class: Class) -> bool {
    match class {
        Class::White => is_white_char(c),
        Class::Digit => is_digit_char(c),
        Class::Alnum => is_alnum_char(c),
    }
}

/// The upper-case form of a lower-case letter; any other character is itself.
pub open spec fn upper_char(c: char) -> char {
    if 'a' <= c <= 'z' {
        ((c as u8) - 32) as char
    } else {
        c
    }
}

/// The character that a byte of input stands for.
pub open spec fn char_of(b: u8) -> char {
    b as char
}

pub fn is_white(c: char) -> (r: bool)
    ensures
        r == is_white_char(c),
{
    c == TAB || c == SPACE
}

pub fn is_digit(c: char) -> (r: bool)
    ensures
        r == is_digit_char(c),
{
    '0' <= c && c <= '9'
}

pub fn is_alpha(c: char) -> (r: bool)
    ensures
        r == is_alpha_char(c),
{
    ('a' <= c && c <= 'z') || ('A' <= c && c <= 'Z')
}

pub fn is_alnum(c: char) -> (r: bool)
    ensures
        r == is_alnum_char(c),
{
    is_alpha(c) || is_digit(c)
}

pub fn to_upper(c: char) -> (r: char)
    ensures
        r == upper_char(c),
{
    if 'a' <= c && c <= 'z' {
        ((c as u8) - 32) as char
    } else {
        c
    }
}

} // verus!
