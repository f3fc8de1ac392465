//! What holds of every result of the lexer.

use vstd::prelude::*;
use crate::chars::{char_class, classes_of, is_digit, unicode_alphabetic, CharClass};
use crate::lexer::{
    lemma_lex_from_well_cut, lemma_lexeme_at_advances, lemma_lexemes_well_cut,
    lemma_next_quote_bounds, lemma_run_end_bounds, lex, lex_from, lexeme_at, next_quote, run_end,
    token_at, tokenize, tokens_at, well_cut, LexFault, ScanFault, Span,
};
use crate::number::all_digits;
use crate::token::{TokenKind, TokenView};

verus! {

/// Every token is the slice of the text at the span of its lexeme, it is no
/// white space, and its lexeme is well cut: the span lies inside the text,
/// and where the token is an integer or a name, every character of the span
/// is of its class, while the character before the span and the character
/// after it, where they exist, are not.
pub proof fn theorem_tokens_are_slices(text: Seq<char>, k: int)
    requires
        tokenize(text) is Ok,
        0 <= k < tokenize(text)->Ok_0.len(),
    ensures
        ({
            let token = tokenize(text)->Ok_0[k];
            let span = lex(classes_of(text))->Ok_0[k];
            &&& token.kind() == span.kind
            &&& token !is Whitespace
            &&& token.text() == text.subrange(span.start, span.end)
            &&& well_cut(classes_of(text), span)
        }),
{
    let token = tokenize(text)->Ok_0[k];
    let span = lex(classes_of(text))->Ok_0[k];
    lemma_lexemes_well_cut(classes_of(text), k);
    assert(token.text() =~= text.subrange(span.start, span.end));
}

/// What the text of a token holds: a parenthesis is one of the two; a name
/// is letters, at least one; an integer is decimal digits, at least one; a
/// string starts with a quote, ends with another and holds none between them.
pub proof fn theorem_token_texts(text: Seq<char>, k: int)
    requires
        tokenize(text) is Ok,
        0 <= k < tokenize(text)->Ok_0.len(),
    ensures
        (match tokenize(text)->Ok_0[k] {
            TokenView::Paren(c) => c == '(' || c == ')',
            TokenView::Name(name) => name.len() > 0 && forall|i: int|
                0 <= i < name.len() ==> unicode_alphabetic(#[trigger] name[i]),
            TokenView::Integer(digits) => digits.len() > 0 && all_digits(digits),
            TokenView::Char(string) => {
                &&& string.len() >= 2
                &&& string.first() == '"'
                &&& string.last() == '"'
                &&& forall|i: int| 0 < i < string.len() - 1 ==> #[trigger] string[i] != '"'
            },
            TokenView::Whitespace => false,
        }),
{
    let classes = classes_of(text);
    let span = lex(classes)->Ok_0[k];
    theorem_tokens_are_slices(text, k);
    let slice = text.subrange(span.start, span.end);
    assert forall|i: int| 0 <= i < slice.len() implies classes[span.start + i] == char_class(
        #[trigger] slice[i],
    ) by {}
    assert(classes[span.start] == char_class(text[span.start]));
    assert(classes[span.end - 1] == char_class(slice[slice.len() - 1]));
}

/// Whether the order of the tests takes nothing from the digits and the
/// letters: `c` is classed as a digit if it is one, and as a letter if it is
/// alphabetic. That fails only of a digit that is also white space, and of an
/// alphabetic character that is also a parenthesis, a quote, white space or a
/// digit.
pub open spec fn plainly_classed(c: char) -> bool {
    &&& is_digit(c) ==> char_class(c) == CharClass::Digit
    &&& unicode_alphabetic(c) ==> char_class(c) == CharClass::Letter
}

/// Whether the characters of `text` from `start` up to `end` all satisfy
/// `class`, while the character before them and the character after them,
/// where they exist, do not.
pub open spec fn maximal_run_of(
    text: Seq<char>,
    start: int,
    end: int,
    class: spec_fn(char) -> bool,
) -> bool {
    &&& forall|j: int| start <= j < end ==> class(#[trigger] text[j])
    &&& start > 0 ==> !class(text[start - 1])
    &&& end < text.len() ==> !class(text[end])
}

/// In a text whose characters are all plainly classed, an integer is a run
/// of decimal digits and a name is a run of alphabetic characters, and
/// neither can be extended: the character before the run and the character
/// after it, where they exist, are no digit, or are not alphabetic.
pub proof fn theorem_runs_of_characters(text: Seq<char>, k: int)
    requires
        tokenize(text) is Ok,
        0 <= k < tokenize(text)->Ok_0.len(),
        forall|i: int| 0 <= i < text.len() ==> plainly_classed(#[trigger] text[i]),
    ensures
        ({
            let span = lex(classes_of(text))->Ok_0[k];
            &&& span.kind == TokenKind::Integer ==> maximal_run_of(
                text,
                span.start,
                span.end,
                |c: char| is_digit(c),
            )
            &&& span.kind == TokenKind::Name ==> maximal_run_of(
                text,
                span.start,
                span.end,
                |c: char| unicode_alphabetic(c),
            )
        }),
{
    let classes = classes_of(text);
    let span = lex(classes)->Ok_0[k];
    theorem_tokens_are_slices(text, k);
    assert forall|j: int| 0 <= j < text.len() implies classes[j] == char_class(
        #[trigger] text[j],
    ) by {}
    if span.start > 0 {
        assert(plainly_classed(text[span.start - 1]));
    }
    if span.end < text.len() {
        assert(plainly_classed(text[span.end]));
    }
}

/// `span`, moved to the right by `by` positions.
pub open spec fn shifted(span: Span, by: int) -> Span {
    Span { kind: span.kind, start: span.start + by, end: span.end + by }
}

/// The result of lexing, moved to the right by `by` positions.
pub open spec fn shifted_result(result: Result<Seq<Span>, ScanFault>, by: int) -> Result<
    Seq<Span>,
    ScanFault,
> {
    match result {
        Ok(spans) => Ok(Seq::new(spans.len(), |k: int| shifted(spans[k], by))),
        Err(ScanFault::UnexpectedCharacter { position }) => Err(
            ScanFault::UnexpectedCharacter { position: position + by },
        ),
        Err(ScanFault::UnterminatedString { position }) => Err(
            ScanFault::UnterminatedString { position: position + by },
        ),
    }
}

/// A run that ends inside `head` ends there whatever follows `head`; a run
/// that reaches the end of `head` goes on into what follows.
pub proof fn lemma_run_end_concat(
    head: Seq<CharClass>,
    tail: Seq<CharClass>,
    from: int,
    class: CharClass,
)
    requires
        0 <= from <= head.len(),
    ensures
        run_end(head + tail, from, class) == (if run_end(head, from, class) < head.len() {
            run_end(head, from, class)
        } else {
            head.len() + run_end(tail, 0, class)
        }),
    decreases head.len() - from,
{
    lemma_run_end_bounds(head, from, class);
    if from < head.len() {
        assert((head + tail)[from] == head[from]);
        if head[from] == class {
            lemma_run_end_concat(head, tail, from + 1, class);
        }
    } else {
        lemma_run_end_shift(head, tail, 0, class);
    }
}

/// A run in `tail` is the same run behind `head`.
pub proof fn lemma_run_end_shift(
    head: Seq<CharClass>,
    tail: Seq<CharClass>,
    from: int,
    class: CharClass,
)
    requires
        0 <= from <= tail.len(),
    ensures
        run_end(head + tail, head.len() + from, class) == head.len() + run_end(tail, from, class),
    decreases tail.len() - from,
{
    if from < tail.len() {
        assert((head + tail)[head.len() + from] == tail[from]);
        if tail[from] == class {
            lemma_run_end_shift(head, tail, from + 1, class);
        }
    }
}

/// A quote found in `head` is found there whatever follows `head`.
pub proof fn lemma_next_quote_concat(head: Seq<CharClass>, tail: Seq<CharClass>, from: int)
    requires
        0 <= from <= head.len(),
        next_quote(head, from) < head.len(),
    ensures
        next_quote(head + tail, from) == next_quote(head, from),
    decreases head.len() - from,
{
    if from < head.len() {
        assert((head + tail)[from] == head[from]);
        if head[from] != CharClass::Quote {
            lemma_next_quote_concat(head, tail, from + 1);
        }
    }
}

/// The search for a quote in `tail` is the same search behind `head`.
pub proof fn lemma_next_quote_shift(head: Seq<CharClass>, tail: Seq<CharClass>, from: int)
    requires
        0 <= from <= tail.len(),
    ensures
        next_quote(head + tail, head.len() + from) == head.len() + next_quote(tail, from),
    decreases tail.len() - from,
{
    if from < tail.len() {
        assert((head + tail)[head.len() + from] == tail[from]);
        if tail[from] != CharClass::Quote {
            lemma_next_quote_shift(head, tail, from + 1);
        }
    }
}

/// Lexing `tail` behind `head` gives what lexing `tail` alone gives, moved
/// to the right by the length of `head`.
pub proof fn lemma_lex_from_shift(head: Seq<CharClass>, tail: Seq<CharClass>, at: int)
    requires
        0 <= at <= tail.len(),
    ensures
        lex_from(head + tail, head.len() + at) == shifted_result(
            lex_from(tail, at),
            head.len() as int,
        ),
    decreases tail.len() - at,
{
    let by = head.len() as int;
    let whole = head + tail;
    if at < tail.len() {
        assert(whole[by + at] == tail[at]);
        lemma_run_end_shift(head, tail, at + 1, CharClass::Digit);
        lemma_run_end_shift(head, tail, at + 1, CharClass::Letter);
        lemma_next_quote_shift(head, tail, at + 1);
        lemma_lexeme_at_advances(tail, at);
        if let Ok(span) = lexeme_at(tail, at) {
            assert(lexeme_at(whole, by + at) == Ok::<Span, ScanFault>(shifted(span, by)));
            lemma_lex_from_shift(head, tail, span.end);
            if let Ok(rest) = lex_from(tail, span.end) {
                let moved = shifted_result(Ok(rest), by)->Ok_0;
                if span.kind != TokenKind::Whitespace {
                    assert(shifted_result(Ok(seq![span] + rest), by)->Ok_0 =~= seq![
                        shifted(span, by),
                    ] + moved);
                }
            }
        }
    } else {
        assert(shifted_result(Ok(Seq::<Span>::empty()), by)->Ok_0 =~= Seq::<Span>::empty());
    }
}

/// Whether `classes` is one lexeme of `kind`, from its first position to its
/// last.
pub open spec fn is_lexeme(classes: Seq<CharClass>, kind: TokenKind) -> bool {
    lex(classes) == Ok::<Seq<Span>, ScanFault>(
        seq![Span { kind, start: 0, end: classes.len() as int }],
    )
}

/// One lexeme is what is found at its first position, and nothing follows it.
pub proof fn lemma_lexeme_alone(classes: Seq<CharClass>, kind: TokenKind)
    requires
        is_lexeme(classes, kind),
    ensures
        classes.len() > 0,
        kind != TokenKind::Whitespace,
        lexeme_at(classes, 0) == Ok::<Span, ScanFault>(
            Span { kind, start: 0, end: classes.len() as int },
        ),
{
    let only = Span { kind, start: 0, end: classes.len() as int };
    assert(lex(classes)->Ok_0[0] == only);
    lemma_lexemes_well_cut(classes, 0);
    lemma_lexeme_at_advances(classes, 0);
    let first = lexeme_at(classes, 0)->Ok_0;
    let rest = lex_from(classes, first.end)->Ok_0;
    if first.kind == TokenKind::Whitespace {
        lemma_lex_from_well_cut(classes, first.end, 0);
    } else {
        assert((seq![first] + rest)[0] == first);
    }
}

/// Two lexemes written one directly after the other are lexed as those two,
/// the second moved behind the first; unless both are integers or both are
/// names, which then make one integer or one name. They never make one
/// lexeme of another kind.
pub proof fn theorem_adjacent_lexemes(
    first: Seq<CharClass>,
    first_kind: TokenKind,
    second: Seq<CharClass>,
    second_kind: TokenKind,
)
    requires
        is_lexeme(first, first_kind),
        is_lexeme(second, second_kind),
    ensures
        lex(first + second) == Ok::<Seq<Span>, ScanFault>(
            if first_kind == second_kind && (first_kind == TokenKind::Integer || first_kind
                == TokenKind::Name) {
                seq![Span { kind: first_kind, start: 0, end: (first.len() + second.len()) as int }]
            } else {
                seq![
                    Span { kind: first_kind, start: 0, end: first.len() as int },
                    Span {
                        kind: second_kind,
                        start: first.len() as int,
                        end: (first.len() + second.len()) as int,
                    },
                ]
            },
        ),
{
    let whole = first + second;
    let by = first.len() as int;
    lemma_lexeme_alone(first, first_kind);
    lemma_lexeme_alone(second, second_kind);
    assert(whole[0] == first[0]);
    assert(whole[by] == second[0]);
    lemma_run_end_concat(first, second, 1, CharClass::Digit);
    lemma_run_end_concat(first, second, 1, CharClass::Letter);
    lemma_run_end_bounds(first, 1, CharClass::Digit);
    lemma_run_end_bounds(first, 1, CharClass::Letter);
    lemma_next_quote_bounds(first, 1);
    if first[0] == CharClass::Quote {
        lemma_next_quote_concat(first, second, 1);
    }
    lemma_lex_from_shift(first, second, 0);
    lemma_lex_from_shift(first, second, second.len() as int);
    let merged = first_kind == second_kind && (first_kind == TokenKind::Integer || first_kind
        == TokenKind::Name);
    if merged {
        assert(lexeme_at(whole, 0) == Ok::<Span, ScanFault>(
            Span { kind: first_kind, start: 0, end: (first.len() + second.len()) as int },
        ));
        assert(lex_from(whole, (first.len() + second.len()) as int) == Ok::<Seq<Span>, ScanFault>(
            Seq::empty(),
        ));
        assert(seq![Span { kind: first_kind, start: 0, end: (first.len() + second.len()) as int }]
            + Seq::<Span>::empty() =~= seq![
            Span { kind: first_kind, start: 0, end: (first.len() + second.len()) as int },
        ]);
    } else {
        assert(lexeme_at(whole, 0) == Ok::<Span, ScanFault>(
            Span { kind: first_kind, start: 0, end: by },
        ));
        let moved = shifted_result(lex(second), by)->Ok_0;
        assert(moved =~= seq![Span { kind: second_kind, start: by, end: by + second.len() }]);
        assert(seq![Span { kind: first_kind, start: 0, end: by }] + moved =~= seq![
            Span { kind: first_kind, start: 0, end: by },
            Span { kind: second_kind, start: by, end: by + second.len() },
        ]);
    }
}

/// Whether `text` is the text of the one token `token`, with nothing before
/// it and nothing after it.
pub open spec fn is_token_text(text: Seq<char>, token: TokenView) -> bool {
    tokenize(text) == Ok::<Seq<TokenView>, LexFault>(seq![token]) && token.text() == text
}

/// The text of one token is one lexeme of the token's kind.
pub proof fn lemma_token_text_is_lexeme(text: Seq<char>, token: TokenView)
    requires
        is_token_text(text, token),
    ensures
        is_lexeme(classes_of(text), token.kind()),
        token == token_at(text, Span { kind: token.kind(), start: 0, end: text.len() as int }),
{
    let spans = lex(classes_of(text))->Ok_0;
    let tokens = tokenize(text)->Ok_0;
    assert(tokens == tokens_at(text, spans));
    assert(tokens.len() == 1 && tokens[0] == token);
    assert(spans.len() == 1);
    let span = spans[0];
    assert(token == token_at(text, span));
    assert(0 <= span.start < span.end <= text.len() && token.kind() == span.kind) by {
        theorem_tokens_are_slices(text, 0);
    }
    assert(token.text().len() == span.end - span.start) by {
        theorem_tokens_are_slices(text, 0);
    }
    assert(span == Span { kind: token.kind(), start: 0, end: text.len() as int });
    assert(spans =~= seq![span]);
}

/// The texts of two tokens written one directly after the other are lexed as
/// those two tokens; unless both are integers or both are names, which then
/// make one integer or one name of both texts. Digits followed by letters are
/// an integer and a name.
pub proof fn theorem_adjacent_tokens(
    first: Seq<char>,
    first_token: TokenView,
    second: Seq<char>,
    second_token: TokenView,
)
    requires
        is_token_text(first, first_token),
        is_token_text(second, second_token),
    ensures
        tokenize(first + second) == Ok::<Seq<TokenView>, LexFault>(
            if first_token is Integer && second_token is Integer {
                seq![TokenView::Integer(first + second)]
            } else if first_token is Name && second_token is Name {
                seq![TokenView::Name(first + second)]
            } else {
                seq![first_token, second_token]
            },
        ),
{
    let whole = first + second;
    let by = first.len() as int;
    lemma_token_text_is_lexeme(first, first_token);
    lemma_token_text_is_lexeme(second, second_token);
    assert(classes_of(whole) =~= classes_of(first) + classes_of(second));
    theorem_adjacent_lexemes(
        classes_of(first),
        first_token.kind(),
        classes_of(second),
        second_token.kind(),
    );
    let spans = lex(classes_of(whole))->Ok_0;
    assert(whole.subrange(0, whole.len() as int) =~= whole);
    assert(whole.subrange(0, by) =~= first);
    assert(whole.subrange(by, whole.len() as int) =~= second);
    assert(second.subrange(0, second.len() as int) =~= second);
    assert(first.subrange(0, by) =~= first);
    assert(whole[0] == first[0]);
    assert(whole[by] == second[0]);
    if first_token is Integer && second_token is Integer {
        assert(tokens_at(whole, spans) =~= seq![TokenView::Integer(whole)]);
    } else if first_token is Name && second_token is Name {
        assert(tokens_at(whole, spans) =~= seq![TokenView::Name(whole)]);
    } else {
        assert(tokens_at(whole, spans) =~= seq![first_token, second_token]);
    }
}

} // verus!
