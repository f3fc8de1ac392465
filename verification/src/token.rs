//! Tokens: the lexical units that the lexer hands to the parser.

use vstd::prelude::*;

verus! {

/// The kinds of token, without their text.
#[derive(Debug, Clone, Copy, PartialEq, Eq, Structural)]
pub enum TokenKind {
    Paren,
    Name,
    Integer,
    Char,
    Whitespace,
}

/// A token. Its text is a slice of the input that it was cut from.
#[derive(Debug, Clone, Copy, PartialEq, Eq)]
pub enum Token<'a> {
    /// A parenthesis, with the character itself: `(` or `)`.
    Paren(char),
    /// An identifier: a run of letters.
    Name(&'a str),
    /// A run of decimal digits, not yet read as a number.
    Integer(&'a str),
    /// A string literal, with both of its quotes.
    Char(&'a str),
    /// Skipped white space. The lexer drops it; no token sequence that it
    /// returns holds one.
    Whitespace,
}

/// A token as a mathematical value: its text is a sequence of characters.
pub ghost enum TokenView {
    Paren(char),
    Name(Seq<char>),
    Integer(Seq<char>),
    Char(Seq<char>),
    Whitespace,
}

impl TokenView {
    /// The kind of this token.
    pub open spec fn kind(self) -> TokenKind {
        match self {
            TokenView::Paren(_) => TokenKind::Paren,
            TokenView::Name(_) => TokenKind::Name,
            TokenView::Integer(_) => TokenKind::Integer,
            TokenView::Char(_) => TokenKind::Char,
            TokenView::Whitespace => TokenKind::Whitespace,
        }
    }

    /// The characters that this token stands for in the input. White space
    /// stands for nothing that is kept.
    pub open spec fn text(self) -> Seq<char> {
        match self {
            TokenView::Paren(c) => seq![c],
            TokenView::Name(text) => text,
            TokenView::Integer(text) => text,
            TokenView::Char(text) => text,
            TokenView::Whitespace => Seq::empty(),
        }
    }
}

impl<'a> View for Token<'a> {
    type V = TokenView;

    open spec fn view(&self) -> TokenView {
        match *self {
            Token::Paren(c) => TokenView::Paren(c),
            Token::Name(text) => TokenView::Name(text@),
            Token::Integer(text) => TokenView::Integer(text@),
            Token::Char(text) => TokenView::Char(text@),
            Token::Whitespace => TokenView::Whitespace,
        }
    }
}

impl<'a> DeepView for Token<'a> {
    type V = TokenView;

    open spec fn deep_view(&self) -> TokenView {
        self@
    }
}

impl<'a> Token<'a> {
    /// The kind of this token.
    pub fn kind(&self) -> (kind: TokenKind)
        ensures
            kind == self@.kind(),
    {
        match self {
            Token::Paren(_) => TokenKind::Paren,
            Token::Name(_) => TokenKind::Name,
            Token::Integer(_) => TokenKind::Integer,
            Token::Char(_) => TokenKind::Char,
            Token::Whitespace => TokenKind::Whitespace,
        }
    }
}

} // verus!
