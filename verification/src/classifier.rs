//! Classification of single bytes into the character classes that phone
//! numbers are made of.
use vstd::prelude::*;

verus! {

/// ASCII `'0'..='9'`.
pub open spec fn is_digit_byte(c: u8) -> bool {
    48 <= c <= 57
}

/// Tab, line feed, carriage return, space, `-` and `.`.
pub open spec fn is_separator_byte(c: u8) -> bool {
    c == 9 || c == 10 || c == 13 || c == 32 || c == 45 || c == 46
}

/// `+`.
pub open spec fn is_plus_byte(c: u8) -> bool {
    c == 43
}

/// `(` and `)`.
pub open spec fn is_paren_byte(c: u8) -> bool {
    c == 40 || c == 41
}

/// Whitespace (tab, line feed, carriage return, space) and the punctuation
/// `, : ; < > [ ] { }` that may delimit a phone number.
pub open spec fn is_boundary_byte(c: u8) -> bool {
    c == 9 || c == 10 || c == 13 || c == 32 || c == 44 || c == 58 || c == 59 || c == 60 || c
        == 62 || c == 91 || c == 93 || c == 123 || c == 125
}

/// Every byte that belongs to at least one of the classes above.
pub open spec fn is_phone_char_byte(c: u8) -> bool {
    is_digit_byte(c) || is_separator_byte(c) || is_plus_byte(c) || is_paren_byte(c)
        || is_boundary_byte(c)
}

/// Stateless classifier of bytes.
pub struct CharacterClassifier;

impl CharacterClassifier {
    /// Whether `c` is an ASCII decimal digit.
    pub fn is_digit(c: u8) -> (r: bool)
        ensures
            r == is_digit_byte(c),
    {
        48 <= c && c <= 57
    }

    /// Whether `c` separates groups of digits (whitespace, `-`, `.`).
    pub fn is_separator(c: u8) -> (r: bool)
        ensures
            r == is_separator_byte(c),
    {
        c == 9 || c == 10 || c == 13 || c == 32 || c == 45 || c == 46
    }

    /// Whether `c` is `+`.
    pub fn is_plus(c: u8) -> (r: bool)
        ensures
            r == is_plus_byte(c),
    {
        c == 43
    }

    /// Whether `c` is `(` or `)`.
    pub fn is_paren(c: u8) -> (r: bool)
        ensures
            r == is_paren_byte(c),
    {
        c == 40 || c == 41
    }

    /// Whether `c` may delimit a phone number.
    pub fn is_boundary(c: u8) -> (r: bool)
        ensures
            r == is_boundary_byte(c),
    {
        c == 9 || c == 10 || c == 13 || c == 32 || c == 44 || c == 58 || c == 59 || c == 60 || c
            == 62 || c == 91 || c == 93 || c == 123 || c == 125
    }

    /// Whether `c` belongs to any of the classes of this classifier.
    pub fn is_phone_char(c: u8) -> (r: bool)
        ensures
            r == is_phone_char_byte(c),
    {
        Self::is_digit(c) || Self::is_separator(c) || Self::is_plus(c) || Self::is_paren(c)
            || Self::is_boundary(c)
    }
}

} // verus!
