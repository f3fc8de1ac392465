//! Front end for a small S-expression language.
//!
//! Source text is cut into tokens by [`tokenizer`], and a sequence of tokens
//! is read as a syntax tree by [`parser`]:
//!
//! ```text
//! program    := expression*
//! expression := INTEGER | STRING | "(" NAME expression* ")"
//! ```
//!
//! Nothing here panics: malformed input is reported through [`LexError`] and
//! [`ParseError`].
//!
//! The modules, from the text to the tree:
//!
//! - [`chars`]: the classes of characters;
//! - [`token`]: tokens;
//! - [`lexer`]: from text to tokens, and [`lexer_laws`]: what holds of them;
//! - [`number`]: decimal numerals;
//! - [`ast`]: the syntax tree;
//! - [`parser`]: from tokens to the tree;
//! - [`grammar`] and [`nesting`]: the parser held against the grammar.

pub mod ast;
pub mod chars;
pub mod grammar;
pub mod lexer;
pub mod lexer_laws;
pub mod nesting;
pub mod number;
pub mod parser;
pub mod token;

pub use ast::Ast;
pub use chars::CharClass;
pub use lexer::{classify, scan, tokenizer, LexError, Lexeme, ScanError};
pub use number::parse_integer;
pub use parser::{parser, unquote, walk, ParseError, TokenStream};
pub use token::{Token, TokenKind};
