//! Character classes.
//!
//! The lexer never looks at a character directly. It looks at its class, and
//! every character has exactly one: the tests are made in a fixed order and
//! the first that succeeds decides.

use vstd::prelude::*;

verus! {

/// Whether `c` has the Unicode property `White_Space`.
pub uninterp spec fn unicode_whitespace(c: char) -> bool;

/// Whether `c` has the Unicode property `Alphabetic`.
pub uninterp spec fn unicode_alphabetic(c: char) -> bool;

/// `char::is_whitespace` tells whether its argument has the property
/// `White_Space`. Which characters have it is left to the Unicode tables
/// that the standard library was built with.
pub assume_specification[ char::is_whitespace ](c: char) -> (b: bool)
    ensures
        b == unicode_whitespace(c),
;

/// `char::is_alphabetic` tells whether its argument has the property
/// `Alphabetic`. Which characters have it is left to the Unicode tables
/// that the standard library was built with.
pub assume_specification[ char::is_alphabetic ](c: char) -> (b: bool)
    ensures
        b == unicode_alphabetic(c),
;

/// What a character means to the lexer.
#[derive(Debug, Clone, Copy, PartialEq, Eq, Structural)]
pub enum CharClass {
    /// `(` or `)`.
    Paren,
    /// `"`.
    Quote,
    /// White space, which separates tokens and is otherwise dropped.
    Whitespace,
    /// One of `0` to `9`.
    Digit,
    /// An alphabetic character.
    Letter,
    /// Anything else: no token can start with it.
    Other,
}

/// Whether `c` is one of the ten decimal digits.
pub open spec fn is_digit(c: char) -> bool {
    '0' <= c <= '9'
}

/// The class of `c`, given the answers of the two Unicode tests on it.
pub open spec fn class_from(c: char, whitespace: bool, alphabetic: bool) -> CharClass {
    if c == '(' || c == ')' {
        CharClass::Paren
    } else if c == '"' {
        CharClass::Quote
    } else if whitespace {
        CharClass::Whitespace
    } else if is_digit(c) {
        CharClass::Digit
    } else if alphabetic {
        CharClass::Letter
    } else {
        CharClass::Other
    }
}

/// The class of `c`.
pub open spec fn char_class(c: char) -> CharClass {
    class_from(c, unicode_whitespace(c), unicode_alphabetic(c))
}

/// The classes of the characters of `text`, position by position.
pub open spec fn classes_of(text: Seq<char>) -> Seq<CharClass> {
    Seq::new(text.len(), |i: int| char_class(text[i]))
}

impl CharClass {
    /// Decides the class of `c` from the answers of the two Unicode tests.
    pub fn from_tests(c: char, whitespace: bool, alphabetic: bool) -> (class: CharClass)
        ensures
            class == class_from(c, whitespace, alphabetic),
    {
        if c == '(' || c == ')' {
            CharClass::Paren
        } else if c == '"' {
            CharClass::Quote
        } else if whitespace {
            CharClass::Whitespace
        } else if '0' <= c && c <= '9' {
            CharClass::Digit
        } else if alphabetic {
            CharClass::Letter
        } else {
            CharClass::Other
        }
    }

    /// Classifies `c`.
    pub fn of(c: char) -> (class: CharClass)
        ensures
            class == char_class(c),
    {
        CharClass::from_tests(c, c.is_whitespace(), c.is_alphabetic())
    }
}

} // verus!
