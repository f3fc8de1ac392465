//! The grammar, and the parser held against it.
//!
//! ```text
//! program    := expression*
//! expression := INTEGER | STRING | "(" NAME expression* ")"
//! ```
//!
//! A tree is spelled by a sequence of symbols, and every token stands for one
//! symbol. The parser accepts exactly the sequences of tokens that spell a
//! program, and returns the program that they spell: that is
//! [`theorem_parser_sound`] and [`theorem_parser_complete`].

use vstd::prelude::*;
use crate::ast::AstView;
use crate::lexer::tokenize;
use crate::lexer_laws::theorem_token_texts;
use crate::number::{digits_value, lemma_digits_value_nonnegative, parse_decimal};
use crate::parser::{
    is_close, is_open, parse_call, parse_expression, parse_params, parse_program, parse_sequence,
    unquoted, ParseFault,
};
use crate::token::TokenView;

verus! {

/// What a token means to the grammar.
pub ghost enum Symbol {
    /// `(`.
    Open,
    /// `)`.
    Close,
    /// A name, with its text.
    Name(Seq<char>),
    /// An integer, with its value.
    Number(int),
    /// A string, with its content.
    Text(Seq<char>),
    /// A token that stands in no program: white space, a parenthesis token
    /// with another character, an integer token whose text is no numeral
    /// that fits.
    Invalid,
}

/// The symbol that `token` stands for.
pub open spec fn symbol_of(token: TokenView) -> Symbol {
    match token {
        TokenView::Paren(c) => if c == '(' {
            Symbol::Open
        } else if c == ')' {
            Symbol::Close
        } else {
            Symbol::Invalid
        },
        TokenView::Name(name) => Symbol::Name(name),
        TokenView::Integer(text) => match parse_decimal(text) {
            Some(value) => Symbol::Number(value),
            None => Symbol::Invalid,
        },
        TokenView::Char(text) => Symbol::Text(unquoted(text)),
        TokenView::Whitespace => Symbol::Invalid,
    }
}

/// The symbols that `tokens` stand for, one for one.
pub open spec fn symbols(tokens: Seq<TokenView>) -> Seq<Symbol> {
    Seq::new(tokens.len(), |i: int| symbol_of(tokens[i]))
}

/// The symbols that spell `ast`: a literal is one symbol; a call is a
/// parenthesis, its name, its parameters one after the other, and a
/// parenthesis; a program is its expressions one after the other.
pub open spec fn spelling(ast: AstView) -> Seq<Symbol>
    decreases ast,
{
    match ast {
        AstView::Program(children) => spelling_all(children),
        AstView::IntegerLiteral(value) => seq![Symbol::Number(value)],
        AstView::StringLiteral(content) => seq![Symbol::Text(content)],
        AstView::CallExpression { name, params } => seq![Symbol::Open, Symbol::Name(name)]
            + spelling_all(params) + seq![Symbol::Close],
    }
}

/// The symbols that spell `asts`, one tree after the other.
pub open spec fn spelling_all(asts: Seq<AstView>) -> Seq<Symbol>
    decreases asts,
{
    if asts.len() == 0 {
        Seq::empty()
    } else {
        spelling(asts.first()) + spelling_all(asts.drop_first())
    }
}

/// Whether `ast` is an expression: a literal, or a call whose parameters are
/// expressions.
pub open spec fn is_expression(ast: AstView) -> bool
    decreases ast,
{
    match ast {
        AstView::Program(_) => false,
        AstView::IntegerLiteral(_) => true,
        AstView::StringLiteral(_) => true,
        AstView::CallExpression { name, params } => forall|i: int|
            0 <= i < params.len() ==> is_expression(#[trigger] params[i]),
    }
}

/// Whether each of `asts` is an expression.
pub open spec fn are_expressions(asts: Seq<AstView>) -> bool {
    forall|i: int| 0 <= i < asts.len() ==> is_expression(#[trigger] asts[i])
}

/// Whether `ast` is a program: the root of a tree whose other nodes are
/// expressions.
pub open spec fn is_program(ast: AstView) -> bool {
    ast matches AstView::Program(children) && are_expressions(children)
}

/// A tree in front of others is spelled in front of them.
pub proof fn lemma_spelling_all_cons(first: AstView, rest: Seq<AstView>)
    ensures
        spelling_all(seq![first] + rest) == spelling(first) + spelling_all(rest),
{
    assert((seq![first] + rest).drop_first() =~= rest);
}

/// What the parser reads as an expression is an expression, and the tokens
/// that it read spell it.
pub proof fn lemma_expression_sound(tokens: Seq<TokenView>, at: int)
    requires
        parse_expression(tokens, at) is Ok,
    ensures
        ({
            let (ast, next) = parse_expression(tokens, at)->Ok_0;
            &&& is_expression(ast)
            &&& 0 <= at < next <= tokens.len()
            &&& symbols(tokens).subrange(at, next) == spelling(ast)
        }),
    decreases tokens.len() - at, 1int,
{
    let (ast, next) = parse_expression(tokens, at)->Ok_0;
    if is_open(tokens[at]) {
        lemma_call_sound(tokens, at);
    } else {
        assert(symbols(tokens).subrange(at, next) =~= spelling(ast));
    }
}

/// What the parser reads as a call is a call of expressions, and the tokens
/// that it read spell it.
pub proof fn lemma_call_sound(tokens: Seq<TokenView>, opened: int)
    requires
        0 <= opened < tokens.len(),
        is_open(tokens[opened]),
        parse_call(tokens, opened) is Ok,
    ensures
        ({
            let (ast, next) = parse_call(tokens, opened)->Ok_0;
            &&& is_expression(ast)
            &&& opened < next <= tokens.len()
            &&& symbols(tokens).subrange(opened, next) == spelling(ast)
        }),
    decreases tokens.len() - opened, 0int,
{
    let (ast, next) = parse_call(tokens, opened)->Ok_0;
    lemma_params_sound(tokens, opened, opened + 2);
    let s = symbols(tokens);
    let params = ast->params;
    assert(s.subrange(opened, next) =~= seq![Symbol::Open, Symbol::Name(ast->name)] + s.subrange(
        opened + 2,
        next - 1,
    ) + seq![Symbol::Close]);
}

/// What the parser reads as the parameters of a call are expressions, the
/// tokens that it read spell them, and a closing parenthesis follows.
pub proof fn lemma_params_sound(tokens: Seq<TokenView>, opened: int, at: int)
    requires
        parse_params(tokens, opened, at) is Ok,
    ensures
        ({
            let (params, end) = parse_params(tokens, opened, at)->Ok_0;
            &&& are_expressions(params)
            &&& 0 <= at < end <= tokens.len()
            &&& is_close(tokens[end - 1])
            &&& symbols(tokens).subrange(at, end - 1) == spelling_all(params)
        }),
    decreases tokens.len() - at, 2int,
{
    let (params, end) = parse_params(tokens, opened, at)->Ok_0;
    let s = symbols(tokens);
    if is_close(tokens[at]) {
        assert(s.subrange(at, end - 1) =~= spelling_all(params));
    } else {
        lemma_expression_sound(tokens, at);
        let (first, next) = parse_expression(tokens, at)->Ok_0;
        lemma_params_sound(tokens, opened, next);
        let (rest, _) = parse_params(tokens, opened, next)->Ok_0;
        lemma_spelling_all_cons(first, rest);
        assert(s.subrange(at, end - 1) =~= s.subrange(at, next) + s.subrange(next, end - 1));
    }
}

/// What the parser reads as a sequence of expressions are expressions, and
/// the tokens spell them.
pub proof fn lemma_sequence_sound(tokens: Seq<TokenView>, at: int)
    requires
        0 <= at <= tokens.len(),
        parse_sequence(tokens, at) is Ok,
    ensures
        are_expressions(parse_sequence(tokens, at)->Ok_0),
        symbols(tokens).subrange(at, tokens.len() as int) == spelling_all(
            parse_sequence(tokens, at)->Ok_0,
        ),
    decreases tokens.len() - at,
{
    let children = parse_sequence(tokens, at)->Ok_0;
    let s = symbols(tokens);
    let len = tokens.len() as int;
    if at < tokens.len() {
        lemma_expression_sound(tokens, at);
        let (first, next) = parse_expression(tokens, at)->Ok_0;
        lemma_sequence_sound(tokens, next);
        let rest = parse_sequence(tokens, next)->Ok_0;
        lemma_spelling_all_cons(first, rest);
        assert(s.subrange(at, len) =~= s.subrange(at, next) + s.subrange(next, len));
    } else {
        assert(s.subrange(at, len) =~= spelling_all(children));
    }
}

/// The parser is sound: what it returns is a program, and the tokens spell
/// it, symbol for symbol. So the tree holds every token, in the order and at
/// the depth of nesting at which the tokens hold it.
pub proof fn theorem_parser_sound(tokens: Seq<TokenView>)
    requires
        parse_program(tokens) is Ok,
    ensures
        is_program(parse_program(tokens)->Ok_0),
        symbols(tokens) == spelling(parse_program(tokens)->Ok_0),
{
    lemma_sequence_sound(tokens, 0);
    assert(symbols(tokens).subrange(0, tokens.len() as int) =~= symbols(tokens));
}

/// An expression is spelled by at least one symbol, and the first is no
/// closing parenthesis.
pub proof fn lemma_spelling_starts(ast: AstView)
    requires
        is_expression(ast),
    ensures
        spelling(ast).len() > 0,
        spelling(ast)[0] != Symbol::Close,
{
}

/// The parser reads an expression wherever the tokens spell one.
pub proof fn lemma_expression_complete(tokens: Seq<TokenView>, at: int, ast: AstView)
    requires
        is_expression(ast),
        0 <= at,
        at + spelling(ast).len() <= tokens.len(),
        symbols(tokens).subrange(at, at + spelling(ast).len()) == spelling(ast),
    ensures
        parse_expression(tokens, at) == Ok::<(AstView, int), ParseFault>(
            (ast, at + spelling(ast).len()),
        ),
    decreases ast,
{
    let s = symbols(tokens);
    let n = spelling(ast).len() as int;
    lemma_spelling_starts(ast);
    assert(s.subrange(at, at + n)[0] == s[at]);
    match ast {
        AstView::CallExpression { name, params } => {
            let inner = spelling_all(params);
            let m = inner.len() as int;
            assert(n == m + 3);
            assert(s.subrange(at, at + n)[1] == s[at + 1]);
            assert(s.subrange(at, at + n)[n - 1] == s[at + n - 1]);
            assert(s.subrange(at + 2, at + 2 + m) =~= inner) by {
                assert forall|i: int| 0 <= i < m implies s.subrange(at + 2, at + 2 + m)[i]
                    == inner[i] by {
                    assert(s.subrange(at, at + n)[i + 2] == s[at + 2 + i]);
                }
            }
            lemma_params_complete(tokens, at, at + 2, params);
        },
        _ => {},
    }
}

/// The parser reads the parameters of a call wherever the tokens spell
/// expressions and then hold a closing parenthesis.
pub proof fn lemma_params_complete(
    tokens: Seq<TokenView>,
    opened: int,
    at: int,
    params: Seq<AstView>,
)
    requires
        are_expressions(params),
        0 <= at,
        at + spelling_all(params).len() < tokens.len(),
        symbols(tokens).subrange(at, at + spelling_all(params).len()) == spelling_all(params),
        is_close(tokens[at + spelling_all(params).len()]),
    ensures
        parse_params(tokens, opened, at) == Ok::<(Seq<AstView>, int), ParseFault>(
            (params, at + spelling_all(params).len() + 1),
        ),
    decreases params,
{
    let s = symbols(tokens);
    let n = spelling_all(params).len() as int;
    if params.len() == 0 {
        assert(params =~= Seq::<AstView>::empty());
    } else {
        let first = params.first();
        let rest = params.drop_first();
        let k = spelling(first).len() as int;
        lemma_spelling_starts(first);
        assert(s.subrange(at, at + n)[0] == s[at]);
        assert(s.subrange(at, at + k) =~= spelling(first)) by {
            assert forall|i: int| 0 <= i < k implies s.subrange(at, at + k)[i] == spelling(
                first,
            )[i] by {
                assert(s.subrange(at, at + n)[i] == s[at + i]);
            }
        }
        assert(s.subrange(at + k, at + n) =~= spelling_all(rest)) by {
            assert forall|i: int| 0 <= i < n - k implies s.subrange(at + k, at + n)[i]
                == spelling_all(rest)[i] by {
                assert(s.subrange(at, at + n)[k + i] == s[at + k + i]);
            }
        }
        lemma_expression_complete(tokens, at, first);
        lemma_params_complete(tokens, opened, at + k, rest);
        assert(seq![first] + rest =~= params);
    }
}

/// The parser reads a sequence of expressions wherever the tokens spell one
/// up to their end.
pub proof fn lemma_sequence_complete(tokens: Seq<TokenView>, at: int, children: Seq<AstView>)
    requires
        are_expressions(children),
        0 <= at,
        at + spelling_all(children).len() == tokens.len(),
        symbols(tokens).subrange(at, tokens.len() as int) == spelling_all(children),
    ensures
        parse_sequence(tokens, at) == Ok::<Seq<AstView>, ParseFault>(children),
    decreases children,
{
    let s = symbols(tokens);
    let len = tokens.len() as int;
    if children.len() == 0 {
        assert(children =~= Seq::<AstView>::empty());
    } else {
        let first = children.first();
        let rest = children.drop_first();
        let k = spelling(first).len() as int;
        lemma_spelling_starts(first);
        assert(s.subrange(at, at + k) =~= spelling(first)) by {
            assert forall|i: int| 0 <= i < k implies s.subrange(at, at + k)[i] == spelling(
                first,
            )[i] by {
                assert(s.subrange(at, len)[i] == s[at + i]);
            }
        }
        assert(s.subrange(at + k, len) =~= spelling_all(rest)) by {
            assert forall|i: int| 0 <= i < len - at - k implies s.subrange(at + k, len)[i]
                == spelling_all(rest)[i] by {
                assert(s.subrange(at, len)[k + i] == s[at + k + i]);
            }
        }
        lemma_expression_complete(tokens, at, first);
        lemma_sequence_complete(tokens, at + k, rest);
        assert(seq![first] + rest =~= children);
    }
}

/// The parser is complete: where the tokens spell a program, it returns that
/// program. It reads every token on the way, for the program that it returns
/// is spelled by all of them.
pub proof fn theorem_parser_complete(tokens: Seq<TokenView>, program: AstView)
    requires
        is_program(program),
        symbols(tokens) == spelling(program),
    ensures
        parse_program(tokens) == Ok::<AstView, ParseFault>(program),
{
    assert(symbols(tokens).subrange(0, tokens.len() as int) =~= symbols(tokens));
    lemma_sequence_complete(tokens, 0, program->Program_0);
}

/// Whether `tokens` spell `program`, which is a program.
pub open spec fn spells(tokens: Seq<TokenView>, program: AstView) -> bool {
    is_program(program) && symbols(tokens) == spelling(program)
}

/// The parser succeeds on exactly the sequences of tokens that spell a
/// program, and no sequence spells two programs.
pub proof fn theorem_parser_decides(tokens: Seq<TokenView>)
    ensures
        parse_program(tokens) is Ok <==> exists|program: AstView| spells(tokens, program),
        forall|program: AstView| #[trigger]
            spells(tokens, program) ==> parse_program(tokens) == Ok::<AstView, ParseFault>(
                program,
            ),
{
    if parse_program(tokens) is Ok {
        theorem_parser_sound(tokens);
        assert(spells(tokens, parse_program(tokens)->Ok_0));
    }
    assert forall|program: AstView| #[trigger] spells(tokens, program) implies parse_program(
        tokens,
    ) == Ok::<AstView, ParseFault>(program) by {
        theorem_parser_complete(tokens, program);
    }
}

/// What the tokens of the lexer stand for: a parenthesis for itself, a name
/// for itself, an integer for the number that its digits spell, unless that
/// number is too large for an `i64`, and a string for what stands between its
/// quotes. So the lexer makes no token that the parser must refuse for
/// itself, but an integer that is too large.
pub proof fn theorem_lexed_symbols(text: Seq<char>, k: int)
    requires
        tokenize(text) is Ok,
        0 <= k < tokenize(text)->Ok_0.len(),
    ensures
        symbol_of(tokenize(text)->Ok_0[k]) == (match tokenize(text)->Ok_0[k] {
            TokenView::Paren(c) => if c == '(' {
                Symbol::Open
            } else {
                Symbol::Close
            },
            TokenView::Name(name) => Symbol::Name(name),
            TokenView::Integer(digits) => if digits_value(digits) <= i64::MAX {
                Symbol::Number(digits_value(digits))
            } else {
                Symbol::Invalid
            },
            TokenView::Char(string) => Symbol::Text(string.subrange(1, string.len() - 1)),
            TokenView::Whitespace => Symbol::Invalid,
        }),
{
    theorem_token_texts(text, k);
    match tokenize(text)->Ok_0[k] {
        TokenView::Integer(digits) => {
            lemma_digits_value_nonnegative(digits);
        },
        TokenView::Char(string) => {
            assert(unquoted(string) =~= string.subrange(1, string.len() - 1));
        },
        _ => {},
    }
}

/// Whether every call in `ast` has a name of at least one character.
pub open spec fn names_nonempty(ast: AstView) -> bool
    decreases ast,
{
    match ast {
        AstView::Program(children) => forall|i: int|
            0 <= i < children.len() ==> names_nonempty(#[trigger] children[i]),
        AstView::IntegerLiteral(_) => true,
        AstView::StringLiteral(_) => true,
        AstView::CallExpression { name, params } => name.len() > 0 && forall|i: int|
            0 <= i < params.len() ==> names_nonempty(#[trigger] params[i]),
    }
}

/// Whether every name among `symbols` has at least one character.
pub open spec fn name_symbols_nonempty(symbols: Seq<Symbol>) -> bool {
    forall|i: int|
        0 <= i < symbols.len() ==> (#[trigger] symbols[i] matches Symbol::Name(name) ==> name.len()
            > 0)
}

/// What holds of the names in a sequence holds of those in its two parts.
pub proof fn lemma_name_symbols_split(head: Seq<Symbol>, tail: Seq<Symbol>)
    requires
        name_symbols_nonempty(head + tail),
    ensures
        name_symbols_nonempty(head),
        name_symbols_nonempty(tail),
{
    assert forall|i: int| 0 <= i < head.len() implies (#[trigger] head[i] matches Symbol::Name(
        name,
    ) ==> name.len() > 0) by {
        assert((head + tail)[i] == head[i]);
    }
    assert forall|i: int| 0 <= i < tail.len() implies (#[trigger] tail[i] matches Symbol::Name(
        name,
    ) ==> name.len() > 0) by {
        assert((head + tail)[head.len() + i] == tail[i]);
    }
}

/// A tree has a name of at least one character on every call if its spelling
/// holds no empty name.
pub proof fn lemma_names_from_spelling(ast: AstView)
    requires
        name_symbols_nonempty(spelling(ast)),
    ensures
        names_nonempty(ast),
    decreases ast,
{
    match ast {
        AstView::Program(children) => {
            lemma_all_names_from_spelling(children);
        },
        AstView::CallExpression { name, params } => {
            let opening = seq![Symbol::Open, Symbol::Name(name)];
            let inner = spelling_all(params);
            let closing = seq![Symbol::Close];
            lemma_name_symbols_split(opening + inner, closing);
            lemma_name_symbols_split(opening, inner);
            assert(opening[1] == Symbol::Name(name));
            lemma_all_names_from_spelling(params);
        },
        _ => {},
    }
}

/// Trees have a name of at least one character on every call if their
/// spelling holds no empty name.
pub proof fn lemma_all_names_from_spelling(asts: Seq<AstView>)
    requires
        name_symbols_nonempty(spelling_all(asts)),
    ensures
        forall|i: int| 0 <= i < asts.len() ==> names_nonempty(#[trigger] asts[i]),
    decreases asts,
{
    if asts.len() > 0 {
        let first = asts.first();
        let rest = asts.drop_first();
        lemma_name_symbols_split(spelling(first), spelling_all(rest));
        lemma_names_from_spelling(first);
        lemma_all_names_from_spelling(rest);
        assert forall|i: int| 0 <= i < asts.len() implies names_nonempty(#[trigger] asts[i]) by {
            if i > 0 {
                assert(asts[i] == rest[i - 1]);
            }
        }
    }
}

/// In the program that the parser reads from the tokens of a text, every
/// call has a name of at least one character.
pub proof fn theorem_call_names_nonempty(text: Seq<char>)
    requires
        tokenize(text) is Ok,
        parse_program(tokenize(text)->Ok_0) is Ok,
    ensures
        names_nonempty(parse_program(tokenize(text)->Ok_0)->Ok_0),
{
    let tokens = tokenize(text)->Ok_0;
    let program = parse_program(tokens)->Ok_0;
    theorem_parser_sound(tokens);
    assert forall|i: int| 0 <= i < symbols(tokens).len() implies (#[trigger] symbols(
        tokens,
    )[i] matches Symbol::Name(name) ==> name.len() > 0) by {
        theorem_token_texts(text, i);
    }
    lemma_names_from_spelling(program);
}

} // verus!
