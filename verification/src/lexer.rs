//! The lexer.
//!
//! Lexing is done on character classes. [`scan`] cuts a sequence of classes
//! into lexemes, each a kind and a span of positions; [`tokenizer`] classifies
//! the characters of a text, scans them and slices the text at each span.
//!
//! A parenthesis is a lexeme by itself. A quote opens a string, which runs up
//! to and including the next quote. White space is skipped. A digit opens a
//! run of digits, a letter a run of letters, and each run is taken as far as it
//! goes. Any other character is a fault.

use std::str::Chars;
use vstd::prelude::*;
use vstd::std_specs::iter::IteratorSpec;
use vstd::string::StrSliceExecFns;
use crate::chars::{classes_of, CharClass};
use crate::token::{Token, TokenKind, TokenView};

verus! {

/// A kind of token and where it stands: the positions from `start` up to, not
/// including, `end`.
#[derive(Debug, Clone, Copy, PartialEq, Eq, Structural)]
pub struct Lexeme {
    pub kind: TokenKind,
    pub start: usize,
    pub end: usize,
}

/// A lexeme as a mathematical value.
pub ghost struct Span {
    pub kind: TokenKind,
    pub start: int,
    pub end: int,
}

impl View for Lexeme {
    type V = Span;

    open spec fn view(&self) -> Span {
        Span { kind: self.kind, start: self.start as int, end: self.end as int }
    }
}

impl DeepView for Lexeme {
    type V = Span;

    open spec fn deep_view(&self) -> Span {
        self@
    }
}

/// Why a sequence of character classes cannot be cut into lexemes.
#[derive(Debug, Clone, Copy, PartialEq, Eq, Structural)]
pub enum ScanError {
    /// The character at `position` can start no token.
    UnexpectedCharacter { position: usize },
    /// The string opened by the quote at `position` is never closed.
    UnterminatedString { position: usize },
}

/// A scan error as a mathematical value.
pub ghost enum ScanFault {
    UnexpectedCharacter { position: int },
    UnterminatedString { position: int },
}

impl View for ScanError {
    type V = ScanFault;

    open spec fn view(&self) -> ScanFault {
        match *self {
            ScanError::UnexpectedCharacter { position } => ScanFault::UnexpectedCharacter {
                position: position as int,
            },
            ScanError::UnterminatedString { position } => ScanFault::UnterminatedString {
                position: position as int,
            },
        }
    }
}

/// Why a text cannot be cut into tokens.
#[derive(Debug, Clone, Copy, PartialEq, Eq, Structural)]
pub enum LexError {
    /// `character`, at `position`, can start no token.
    UnexpectedCharacter { character: char, position: usize },
    /// The string opened by the quote at `position` is never closed.
    UnterminatedString { position: usize },
}

/// A lexical error as a mathematical value.
pub ghost enum LexFault {
    UnexpectedCharacter { character: char, position: int },
    UnterminatedString { position: int },
}

impl View for LexError {
    type V = LexFault;

    open spec fn view(&self) -> LexFault {
        match *self {
            LexError::UnexpectedCharacter { character, position } => LexFault::UnexpectedCharacter {
                character,
                position: position as int,
            },
            LexError::UnterminatedString { position } => LexFault::UnterminatedString {
                position: position as int,
            },
        }
    }
}

/// Where the run of `class` that covers `from` ends: the first position at or
/// after `from` that holds another class, or the length of `classes`.
pub open spec fn run_end(classes: Seq<CharClass>, from: int, class: CharClass) -> int
    decreases classes.len() - from,
{
    if 0 <= from < classes.len() && classes[from] == class {
        run_end(classes, from + 1, class)
    } else {
        from
    }
}

/// The first position at or after `from` that holds a quote, or the length of
/// `classes` if there is none.
pub open spec fn next_quote(classes: Seq<CharClass>, from: int) -> int
    decreases classes.len() - from,
{
    if 0 <= from < classes.len() && classes[from] != CharClass::Quote {
        next_quote(classes, from + 1)
    } else {
        from
    }
}

/// The lexeme that starts at position `at` of `classes`, white space being a
/// lexeme of one position, or the fault found there.
pub open spec fn lexeme_at(classes: Seq<CharClass>, at: int) -> Result<Span, ScanFault>
    recommends
        0 <= at < classes.len(),
{
    match classes[at] {
        CharClass::Paren => Ok(Span { kind: TokenKind::Paren, start: at, end: at + 1 }),
        CharClass::Quote => {
            let close = next_quote(classes, at + 1);
            if close < classes.len() {
                Ok(Span { kind: TokenKind::Char, start: at, end: close + 1 })
            } else {
                Err(ScanFault::UnterminatedString { position: at })
            }
        },
        CharClass::Whitespace => Ok(Span { kind: TokenKind::Whitespace, start: at, end: at + 1 }),
        CharClass::Digit => Ok(
            Span {
                kind: TokenKind::Integer,
                start: at,
                end: run_end(classes, at + 1, CharClass::Digit),
            },
        ),
        CharClass::Letter => Ok(
            Span {
                kind: TokenKind::Name,
                start: at,
                end: run_end(classes, at + 1, CharClass::Letter),
            },
        ),
        CharClass::Other => Err(ScanFault::UnexpectedCharacter { position: at }),
    }
}

/// The lexemes of `classes` from position `at` on, white space left out, or
/// the first fault.
pub open spec fn lex_from(classes: Seq<CharClass>, at: int) -> Result<Seq<Span>, ScanFault>
    decreases classes.len() - at,
    via lex_from_terminates
{
    if 0 <= at < classes.len() {
        match lexeme_at(classes, at) {
            Err(fault) => Err(fault),
            Ok(span) => match lex_from(classes, span.end) {
                Err(fault) => Err(fault),
                Ok(rest) => if span.kind == TokenKind::Whitespace {
                    Ok(rest)
                } else {
                    Ok(seq![span] + rest)
                },
            },
        }
    } else {
        Ok(Seq::empty())
    }
}

#[via_fn]
proof fn lex_from_terminates(classes: Seq<CharClass>, at: int) {
    if 0 <= at < classes.len() {
        lemma_lexeme_at_advances(classes, at);
    }
}

/// A run ends at or after the position it is asked from, inside `classes`.
pub proof fn lemma_run_end_bounds(classes: Seq<CharClass>, from: int, class: CharClass)
    requires
        0 <= from <= classes.len(),
    ensures
        from <= run_end(classes, from, class) <= classes.len(),
    decreases classes.len() - from,
{
    if from < classes.len() && classes[from] == class {
        lemma_run_end_bounds(classes, from + 1, class);
    }
}

/// The search for a quote ends at or after the position it starts from,
/// inside `classes`.
pub proof fn lemma_next_quote_bounds(classes: Seq<CharClass>, from: int)
    requires
        0 <= from <= classes.len(),
    ensures
        from <= next_quote(classes, from) <= classes.len(),
    decreases classes.len() - from,
{
    if from < classes.len() && classes[from] != CharClass::Quote {
        lemma_next_quote_bounds(classes, from + 1);
    }
}

/// A lexeme starts where it was asked for, is not empty and ends inside
/// `classes`.
pub proof fn lemma_lexeme_at_advances(classes: Seq<CharClass>, at: int)
    requires
        0 <= at < classes.len(),
    ensures
        lexeme_at(classes, at) matches Ok(span) ==> span.start == at && at < span.end
            <= classes.len(),
{
    lemma_run_end_bounds(classes, at + 1, CharClass::Digit);
    lemma_run_end_bounds(classes, at + 1, CharClass::Letter);
    lemma_next_quote_bounds(classes, at + 1);
}

/// The lexemes of `classes`, white space left out, or the first fault.
pub open spec fn lex(classes: Seq<CharClass>) -> Result<Seq<Span>, ScanFault> {
    lex_from(classes, 0)
}

/// Whether the positions from `start` up to `end` are a run of `class` that
/// can be extended on neither side.
pub open spec fn maximal_run(classes: Seq<CharClass>, start: int, end: int, class: CharClass) -> bool {
    &&& forall|j: int| start <= j < end ==> classes[j] == class
    &&& start > 0 ==> classes[start - 1] != class
    &&& end < classes.len() ==> classes[end] != class
}

/// Whether `span` is cut out of `classes` as its kind demands: a parenthesis
/// alone, a string from its quote to the next one, digits and letters as runs
/// that can be extended on neither side. White space is never cut out.
pub open spec fn well_cut(classes: Seq<CharClass>, span: Span) -> bool {
    &&& 0 <= span.start < span.end <= classes.len()
    &&& match span.kind {
        TokenKind::Paren => span.end == span.start + 1 && classes[span.start] == CharClass::Paren,
        TokenKind::Char => {
            &&& span.start + 1 < span.end
            &&& classes[span.start] == CharClass::Quote
            &&& classes[span.end - 1] == CharClass::Quote
            &&& forall|j: int| span.start < j < span.end - 1 ==> classes[j] != CharClass::Quote
        },
        TokenKind::Integer => maximal_run(classes, span.start, span.end, CharClass::Digit),
        TokenKind::Name => maximal_run(classes, span.start, span.end, CharClass::Letter),
        TokenKind::Whitespace => false,
    }
}

/// From `from` up to where its run ends, every position holds `class`, and
/// the position after the run, if there is one, does not.
pub proof fn lemma_run_end_is_run(classes: Seq<CharClass>, from: int, class: CharClass)
    requires
        0 <= from <= classes.len(),
    ensures
        forall|j: int| from <= j < run_end(classes, from, class) ==> classes[j] == class,
        run_end(classes, from, class) < classes.len() ==> classes[run_end(classes, from, class)]
            != class,
    decreases classes.len() - from,
{
    if from < classes.len() && classes[from] == class {
        lemma_run_end_is_run(classes, from + 1, class);
    }
}

/// No position from `from` up to the next quote holds a quote, and the
/// position found, if it is inside `classes`, does.
pub proof fn lemma_next_quote_is_first(classes: Seq<CharClass>, from: int)
    requires
        0 <= from <= classes.len(),
    ensures
        forall|j: int| from <= j < next_quote(classes, from) ==> classes[j] != CharClass::Quote,
        next_quote(classes, from) < classes.len() ==> classes[next_quote(classes, from)]
            == CharClass::Quote,
    decreases classes.len() - from,
{
    if from < classes.len() && classes[from] != CharClass::Quote {
        lemma_next_quote_is_first(classes, from + 1);
    }
}

/// Whether no run of digits or of letters reaches over position `at` from
/// the left.
pub open spec fn run_boundary(classes: Seq<CharClass>, at: int) -> bool {
    0 < at < classes.len() && (classes[at] == CharClass::Digit || classes[at] == CharClass::Letter)
        ==> classes[at - 1] != classes[at]
}

/// Every lexeme found from a run boundary on is well cut and starts at or
/// after that boundary.
pub proof fn lemma_lex_from_well_cut(classes: Seq<CharClass>, at: int, k: int)
    requires
        0 <= at <= classes.len(),
        run_boundary(classes, at),
        lex_from(classes, at) is Ok,
        0 <= k < lex_from(classes, at)->Ok_0.len(),
    ensures
        well_cut(classes, lex_from(classes, at)->Ok_0[k]),
        at <= lex_from(classes, at)->Ok_0[k].start,
    decreases classes.len() - at,
{
    lemma_lexeme_at_advances(classes, at);
    lemma_run_end_is_run(classes, at + 1, CharClass::Digit);
    lemma_run_end_is_run(classes, at + 1, CharClass::Letter);
    lemma_next_quote_is_first(classes, at + 1);
    lemma_next_quote_bounds(classes, at + 1);
    let span = lexeme_at(classes, at)->Ok_0;
    let rest = lex_from(classes, span.end)->Ok_0;
    if span.kind == TokenKind::Whitespace {
        lemma_lex_from_well_cut(classes, span.end, k);
    } else if k > 0 {
        lemma_lex_from_well_cut(classes, span.end, k - 1);
        assert((seq![span] + rest)[k] == rest[k - 1]);
    } else {
        assert((seq![span] + rest)[0] == span);
    }
}

/// Every lexeme is well cut: it lies inside the input, it is not white space,
/// and if it is a run of digits or of letters, then every position of its span
/// holds that class, while the position before the span and the position after
/// it, where they exist, hold another.
pub proof fn lemma_lexemes_well_cut(classes: Seq<CharClass>, k: int)
    requires
        lex(classes) is Ok,
        0 <= k < lex(classes)->Ok_0.len(),
    ensures
        well_cut(classes, lex(classes)->Ok_0[k]),
{
    lemma_lex_from_well_cut(classes, 0, k);
}

/// Whether every position from `from` up to `to` holds white space.
pub open spec fn all_whitespace(classes: Seq<CharClass>, from: int, to: int) -> bool {
    forall|j: int| from <= j < to ==> classes[j] == CharClass::Whitespace
}

/// Between the position where lexing starts and the first lexeme, between
/// one lexeme and the next, and behind the last lexeme stands white space
/// and nothing else; where there is no lexeme, all is white space.
pub proof fn lemma_lex_from_gaps(classes: Seq<CharClass>, at: int, k: int)
    requires
        0 <= at <= classes.len(),
        lex_from(classes, at) is Ok,
        0 <= k <= lex_from(classes, at)->Ok_0.len(),
    ensures
        ({
            let spans = lex_from(classes, at)->Ok_0;
            let from = if k == 0 {
                at
            } else {
                spans[k - 1].end
            };
            let to = if k == spans.len() {
                classes.len() as int
            } else {
                spans[k].start
            };
            from <= to && all_whitespace(classes, from, to)
        }),
    decreases classes.len() - at,
{
    if at < classes.len() {
        lemma_lexeme_at_advances(classes, at);
        let span = lexeme_at(classes, at)->Ok_0;
        let rest = lex_from(classes, span.end)->Ok_0;
        if span.kind == TokenKind::Whitespace {
            lemma_lex_from_gaps(classes, span.end, k);
            if k > 0 {
                lemma_lex_from_gaps(classes, span.end, 0);
            }
        } else if k > 0 {
            lemma_lex_from_gaps(classes, span.end, k - 1);
            assert((seq![span] + rest)[k - 1] == if k == 1 {
                span
            } else {
                rest[k - 2]
            });
            if k < rest.len() + 1 {
                assert((seq![span] + rest)[k] == rest[k - 1]);
            }
        } else {
            assert((seq![span] + rest)[0] == span);
        }
    }
}

/// The lexemes stand in the order of the input and do not overlap, and all
/// that stands outside them is white space: before the first, between one and
/// the next, and behind the last. With `k` the number of lexemes before the
/// gap.
pub proof fn lemma_lexemes_in_order(classes: Seq<CharClass>, k: int)
    requires
        lex(classes) is Ok,
        0 <= k <= lex(classes)->Ok_0.len(),
    ensures
        ({
            let spans = lex(classes)->Ok_0;
            let from = if k == 0 {
                0
            } else {
                spans[k - 1].end
            };
            let to = if k == spans.len() {
                classes.len() as int
            } else {
                spans[k].start
            };
            from <= to && all_whitespace(classes, from, to)
        }),
{
    lemma_lex_from_gaps(classes, 0, k);
}

/// A fault is found at a position inside the input.
pub proof fn lemma_lex_from_fault_position(classes: Seq<CharClass>, at: int)
    requires
        0 <= at <= classes.len(),
        lex_from(classes, at) is Err,
    ensures
        lex_from(classes, at)->Err_0 matches ScanFault::UnexpectedCharacter { position } ==> at
            <= position < classes.len() && classes[position] == CharClass::Other,
        lex_from(classes, at)->Err_0 matches ScanFault::UnterminatedString { position } ==> at
            <= position < classes.len() && classes[position] == CharClass::Quote,
    decreases classes.len() - at,
{
    lemma_lexeme_at_advances(classes, at);
    if let Ok(span) = lexeme_at(classes, at) {
        lemma_lex_from_fault_position(classes, span.end);
    }
}

/// The result `rest` of lexing a tail, behind the lexemes `done` that were
/// found before it.
spec fn behind(done: Seq<Span>, rest: Result<Seq<Span>, ScanFault>) -> Result<
    Seq<Span>,
    ScanFault,
> {
    match rest {
        Ok(spans) => Ok(done + spans),
        Err(fault) => Err(fault),
    }
}

/// Finds where the run of `class` that covers `from` ends.
fn find_run_end(classes: &[CharClass], from: usize, class: CharClass) -> (end: usize)
    requires
        from <= classes@.len(),
    ensures
        end == run_end(classes@, from as int, class),
        from <= end <= classes@.len(),
{
    let mut end = from;
    while end < classes.len() && classes[end] == class
        invariant
            from <= end <= classes@.len(),
            run_end(classes@, end as int, class) == run_end(classes@, from as int, class),
        decreases classes@.len() - end,
    {
        end += 1;
    }
    end
}

/// Finds the first quote at or after `from`.
fn find_next_quote(classes: &[CharClass], from: usize) -> (close: usize)
    requires
        from <= classes@.len(),
    ensures
        close == next_quote(classes@, from as int),
        from <= close <= classes@.len(),
{
    let mut close = from;
    while close < classes.len() && classes[close] != CharClass::Quote
        invariant
            from <= close <= classes@.len(),
            next_quote(classes@, close as int) == next_quote(classes@, from as int),
        decreases classes@.len() - close,
    {
        close += 1;
    }
    close
}

/// Cuts `classes` into lexemes, in the order in which they stand, white space
/// left out. Stops at the first fault.
pub fn scan(classes: &[CharClass]) -> (result: Result<Vec<Lexeme>, ScanError>)
    ensures
        result matches Ok(lexemes) ==> lex(classes@) == Ok::<Seq<Span>, ScanFault>(
            lexemes.deep_view(),
        ),
        result matches Ok(lexemes) ==> forall|k: int|
            0 <= k < lexemes@.len() ==> (#[trigger] lexemes@[k]).kind != TokenKind::Whitespace,
        result matches Err(error) ==> lex(classes@) == Err::<Seq<Span>, ScanFault>(error@),
{
    let mut lexemes: Vec<Lexeme> = Vec::new();
    let mut at: usize = 0;
    proof {
        if let Ok(spans) = lex(classes@) {
            assert(lexemes.deep_view() + spans =~= spans);
        }
    }
    while at < classes.len()
        invariant
            at <= classes@.len(),
            lex(classes@) == behind(lexemes.deep_view(), lex_from(classes@, at as int)),
            forall|k: int|
                0 <= k < lexemes@.len() ==> (#[trigger] lexemes@[k]).kind != TokenKind::Whitespace,
        decreases classes@.len() - at,
    {
        let ghost done = lexemes.deep_view();
        let (kind, end) = match classes[at] {
            CharClass::Paren => (TokenKind::Paren, at + 1),
            CharClass::Quote => {
                let close = find_next_quote(classes, at + 1);
                if close >= classes.len() {
                    return Err(ScanError::UnterminatedString { position: at });
                }
                (TokenKind::Char, close + 1)
            },
            CharClass::Whitespace => (TokenKind::Whitespace, at + 1),
            CharClass::Digit => (TokenKind::Integer, find_run_end(classes, at + 1, CharClass::Digit)),
            CharClass::Letter => (TokenKind::Name, find_run_end(classes, at + 1, CharClass::Letter)),
            CharClass::Other => {
                return Err(ScanError::UnexpectedCharacter { position: at });
            },
        };
        let lexeme = Lexeme { kind, start: at, end };
        assert(lexeme_at(classes@, at as int) == Ok::<Span, ScanFault>(lexeme@));
        if kind != TokenKind::Whitespace {
            lexemes.push(lexeme);
            proof {
                assert(lexemes.deep_view() =~= done.push(lexeme@));
                if let Ok(rest) = lex_from(classes@, end as int) {
                    assert(done + (seq![lexeme@] + rest) =~= done.push(lexeme@) + rest);
                }
            }
        }
        at = end;
    }
    assert(lexemes.deep_view() + Seq::<Span>::empty() =~= lexemes.deep_view());
    Ok(lexemes)
}

/// The token that `span` cuts out of `text`.
pub open spec fn token_at(text: Seq<char>, span: Span) -> TokenView {
    match span.kind {
        TokenKind::Paren => TokenView::Paren(text[span.start]),
        TokenKind::Name => TokenView::Name(text.subrange(span.start, span.end)),
        TokenKind::Integer => TokenView::Integer(text.subrange(span.start, span.end)),
        TokenKind::Char => TokenView::Char(text.subrange(span.start, span.end)),
        TokenKind::Whitespace => TokenView::Whitespace,
    }
}

/// The tokens that `spans` cut out of `text`, in the same order.
pub open spec fn tokens_at(text: Seq<char>, spans: Seq<Span>) -> Seq<TokenView> {
    Seq::new(spans.len(), |k: int| token_at(text, spans[k]))
}

/// The tokens of `text`: what the lexemes of its character classes cut out of
/// it. A fault is reported with the character that it was found at.
pub open spec fn tokenize(text: Seq<char>) -> Result<Seq<TokenView>, LexFault> {
    match lex(classes_of(text)) {
        Ok(spans) => Ok(tokens_at(text, spans)),
        Err(ScanFault::UnexpectedCharacter { position }) => Err(
            LexFault::UnexpectedCharacter { character: text[position], position },
        ),
        Err(ScanFault::UnterminatedString { position }) => Err(
            LexFault::UnterminatedString { position },
        ),
    }
}

/// Classifies the characters of `data`, one after the other.
pub fn classify(data: &str) -> (classes: Vec<CharClass>)
    ensures
        classes@ == classes_of(data@),
{
    broadcast use vstd::string::group_string_axioms;

    let mut classes: Vec<CharClass> = Vec::new();
    let mut rest = data.chars();
    loop
        invariant
            classes@.len() <= data@.len(),
            rest.remaining() == data@.skip(classes@.len() as int),
            classes@ == classes_of(data@.take(classes@.len() as int)),
        ensures
            classes@ == classes_of(data@),
        decreases data@.len() - classes@.len(),
    {
        let ghost seen = classes@.len() as int;
        match rest.next() {
            None => {
                assert(data@.take(seen) == data@);
                break ;
            },
            Some(c) => {
                classes.push(CharClass::of(c));
                assert(classes@ == classes_of(data@.take(seen + 1)));
            },
        }
    }
    classes
}

/// `Chars::as_str` returns, as a slice of the text that is being iterated
/// over, the characters that the iterator has not yet handed out.
pub assume_specification<'a>[ Chars::<'a>::as_str ](chars: &Chars<'a>) -> (rest: &'a str)
    ensures
        rest@ == chars.remaining(),
;

/// Moves `rest`, which stands at position `at` of `text`, forward to
/// position `to`.
fn skip_to<'a>(rest: &mut Chars<'a>, Ghost(text): Ghost<Seq<char>>, at: usize, to: usize)
    requires
        at <= to <= text.len(),
        (*old(rest)).remaining() == text.skip(at as int),
    ensures
        (*final(rest)).remaining() == text.skip(to as int),
{
    broadcast use vstd::string::group_string_axioms;

    let mut at = at;
    while at < to
        invariant
            at <= to <= text.len(),
            (*rest).remaining() == text.skip(at as int),
        decreases to - at,
    {
        let _ = rest.next();
        at += 1;
    }
}

/// Cuts `data` into tokens, in the order in which they stand in it. White
/// space separates tokens and is dropped. The text of a name, of an integer
/// and of a string is a slice of `data`; that of a string holds both quotes.
///
/// Fails on the first character that can start no token, and on a string
/// that is not closed before `data` ends.
pub fn tokenizer<'a>(data: &'a str) -> (result: Result<Vec<Token<'a>>, LexError>)
    ensures
        result matches Ok(tokens) ==> tokenize(data@) == Ok::<Seq<TokenView>, LexFault>(
            tokens.deep_view(),
        ),
        result matches Ok(tokens) ==> forall|k: int|
            0 <= k < tokens@.len() ==> !(#[trigger] tokens@[k] is Whitespace),
        result matches Err(error) ==> tokenize(data@) == Err::<Seq<TokenView>, LexFault>(error@),
{
    broadcast use vstd::string::group_string_axioms;

    let classes = classify(data);
    match scan(classes.as_slice()) {
        Err(ScanError::UnexpectedCharacter { position }) => {
            proof {
                lemma_lex_from_fault_position(classes@, 0);
            }
            Err(LexError::UnexpectedCharacter { character: data.get_char(position), position })
        },
        Err(ScanError::UnterminatedString { position }) => Err(
            LexError::UnterminatedString { position },
        ),
        Ok(lexemes) => {
            let ghost spans = lexemes.deep_view();
            let mut tokens: Vec<Token<'a>> = Vec::new();
            let mut rest = data.chars();
            let mut at: usize = 0;
            let mut k: usize = 0;
            while k < lexemes.len()
                invariant
                    k <= lexemes@.len(),
                    classes@ == classes_of(data@),
                    spans == lexemes.deep_view(),
                    lex(classes@) == Ok::<Seq<Span>, ScanFault>(spans),
                    at == if k == 0 { 0 } else { spans[k - 1].end },
                    at <= data@.len(),
                    rest.remaining() == data@.skip(at as int),
                    tokens.deep_view() == tokens_at(data@, spans.take(k as int)),
                    forall|j: int| 0 <= j < tokens@.len() ==> !(#[trigger] tokens@[j] is Whitespace),
                decreases lexemes@.len() - k,
            {
                let lexeme = lexemes[k];
                proof {
                    lemma_lexemes_well_cut(classes@, k as int);
                    lemma_lexemes_in_order(classes@, k as int);
                    assert(spans[k as int] == lexeme@);
                }
                skip_to(&mut rest, Ghost(data@), at, lexeme.start);
                let tail = rest.as_str();
                let first = rest.next();
                assert(data@.skip(lexeme.start as int).drop_first() =~= data@.skip(
                    lexeme.start + 1,
                ));
                skip_to(&mut rest, Ghost(data@), lexeme.start + 1, lexeme.end);
                at = lexeme.end;
                let text = tail.substring_char(0, lexeme.end - lexeme.start);
                assert(text@ =~= data@.subrange(lexeme.start as int, lexeme.end as int));
                let token = match lexeme.kind {
                    TokenKind::Paren => Token::Paren(first.unwrap()),
                    TokenKind::Name => Token::Name(text),
                    TokenKind::Integer => Token::Integer(text),
                    TokenKind::Char => Token::Char(text),
                    TokenKind::Whitespace => Token::Whitespace,
                };
                let ghost cut = tokens.deep_view();
                tokens.push(token);
                k += 1;
                proof {
                    assert(tokens.deep_view() =~= cut.push(token@));
                    assert(spans.take(k as int) =~= spans.take(k - 1).push(lexeme@));
                    assert(tokens_at(data@, spans.take(k as int)) =~= cut.push(token@));
                }
            }
            assert(spans.take(k as int) == spans);
            Ok(tokens)
        },
    }
}

} // verus!
