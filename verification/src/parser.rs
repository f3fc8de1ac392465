//! The parser.
//!
//! [`walk`] reads one expression from a stream of tokens, calling itself for
//! the parameters of a call, so it goes as deep on the stack as calls are
//! nested in the input. [`parser`] reads expressions until the tokens are used
//! up and returns them as one program.

use vstd::prelude::*;
use vstd::string::StrSliceExecFns;
use crate::ast::{lemma_call_view, lemma_program_view, Ast, AstView};
use crate::number::{parse_decimal, parse_integer};
use crate::token::{Token, TokenView};

verus! {

/// Why a sequence of tokens is no program. A position is an index into the
/// sequence.
#[derive(Debug, Clone, Copy, PartialEq, Eq)]
#[allow(inconsistent_fields)]
pub enum ParseError<'a> {
    /// An opening parenthesis is followed by `found`, at `position`, where the
    /// name of the call must stand.
    MalformedCall { position: usize, found: Token<'a> },
    /// The call opened by the parenthesis at `opened` is not closed before the
    /// tokens end.
    UnterminatedCall { opened: usize },
    /// An expression must start at `position`, and `found` cannot start one;
    /// or the tokens end at `position`, where one more is needed, and `found`
    /// is `None`.
    UnexpectedToken { position: usize, found: Option<Token<'a>> },
    /// The integer token at `position` holds `text`, which is no decimal
    /// numeral that fits in an `i64`. The lexer makes no such token unless the
    /// number is too large.
    InvalidInteger { position: usize, text: &'a str },
}

/// A parse error as a mathematical value.
#[allow(inconsistent_fields)]
pub ghost enum ParseFault {
    MalformedCall { position: int, found: TokenView },
    UnterminatedCall { opened: int },
    UnexpectedToken { position: int, found: Option<TokenView> },
    InvalidInteger { position: int, text: Seq<char> },
}

impl<'a> View for ParseError<'a> {
    type V = ParseFault;

    open spec fn view(&self) -> ParseFault {
        match *self {
            ParseError::MalformedCall { position, found } => ParseFault::MalformedCall {
                position: position as int,
                found: found@,
            },
            ParseError::UnterminatedCall { opened } => ParseFault::UnterminatedCall {
                opened: opened as int,
            },
            ParseError::UnexpectedToken { position, found } => ParseFault::UnexpectedToken {
                position: position as int,
                found: match found {
                    Some(token) => Some(token@),
                    None => None,
                },
            },
            ParseError::InvalidInteger { position, text } => ParseFault::InvalidInteger {
                position: position as int,
                text: text@,
            },
        }
    }
}

impl ParseFault {
    /// Where reading stops on this fault, in a sequence of `len` tokens: behind
    /// the token that was refused, or at the end where the tokens ran out.
    pub open spec fn stopped_at(self, len: int) -> int {
        match self {
            ParseFault::MalformedCall { position, .. } => position + 1,
            ParseFault::UnterminatedCall { .. } => len,
            ParseFault::UnexpectedToken { position, found } => if found is Some {
                position + 1
            } else {
                position
            },
            ParseFault::InvalidInteger { position, .. } => position + 1,
        }
    }
}

/// The content of a string token: its text without the quote that it starts
/// with and without the quote that it ends with, where they are there.
pub open spec fn unquoted(text: Seq<char>) -> Seq<char> {
    let opened = if text.len() > 0 && text.first() == '"' {
        text.drop_first()
    } else {
        text
    };
    if opened.len() > 0 && opened.last() == '"' {
        opened.drop_last()
    } else {
        opened
    }
}

/// Whether `token` is an opening parenthesis.
pub open spec fn is_open(token: TokenView) -> bool {
    token == TokenView::Paren('(')
}

/// Whether `token` is a closing parenthesis.
pub open spec fn is_close(token: TokenView) -> bool {
    token == TokenView::Paren(')')
}

/// The expression that starts at position `at` of `tokens`, with the position
/// behind it; or the fault met while reading it.
pub open spec fn parse_expression(tokens: Seq<TokenView>, at: int) -> Result<
    (AstView, int),
    ParseFault,
>
    decreases tokens.len() - at, 1int,
{
    if 0 <= at < tokens.len() {
        match tokens[at] {
            TokenView::Integer(text) => match parse_decimal(text) {
                Some(value) => Ok((AstView::IntegerLiteral(value), at + 1)),
                None => Err(ParseFault::InvalidInteger { position: at, text }),
            },
            TokenView::Char(text) => Ok((AstView::StringLiteral(unquoted(text)), at + 1)),
            token => if is_open(token) {
                parse_call(tokens, at)
            } else {
                Err(ParseFault::UnexpectedToken { position: at, found: Some(token) })
            },
        }
    } else {
        Err(ParseFault::UnexpectedToken { position: at, found: None })
    }
}

/// The call whose opening parenthesis stands at position `opened` of
/// `tokens`, with the position behind its closing parenthesis; or the fault
/// met while reading it.
pub open spec fn parse_call(tokens: Seq<TokenView>, opened: int) -> Result<
    (AstView, int),
    ParseFault,
>
    decreases tokens.len() - opened, 0int,
{
    if 0 <= opened && opened + 1 < tokens.len() {
        match tokens[opened + 1] {
            TokenView::Name(name) => match parse_params(tokens, opened, opened + 2) {
                Ok((params, next)) => Ok((AstView::CallExpression { name, params }, next)),
                Err(fault) => Err(fault),
            },
            found => Err(ParseFault::MalformedCall { position: opened + 1, found }),
        }
    } else {
        Err(ParseFault::UnexpectedToken { position: opened + 1, found: None })
    }
}

/// The parameters of the call opened at `opened`, read from position `at` of
/// `tokens` up to the parenthesis that closes the call, with the position
/// behind that parenthesis; or the fault met while reading them.
pub open spec fn parse_params(tokens: Seq<TokenView>, opened: int, at: int) -> Result<
    (Seq<AstView>, int),
    ParseFault,
>
    decreases tokens.len() - at, 2int,
{
    if 0 <= at < tokens.len() {
        if is_close(tokens[at]) {
            Ok((Seq::empty(), at + 1))
        } else {
            match parse_expression(tokens, at) {
                Err(fault) => Err(fault),
                Ok((first, next)) => {
                    if at < next <= tokens.len() {
                        match parse_params(tokens, opened, next) {
                            Err(fault) => Err(fault),
                            Ok((rest, end)) => Ok((seq![first] + rest, end)),
                        }
                    } else {
                        // Not taken: an expression ends behind where it starts.
                        Err(ParseFault::UnterminatedCall { opened })
                    }
                },
            }
        }
    } else {
        Err(ParseFault::UnterminatedCall { opened })
    }
}

/// The expressions that stand one after the other from position `at` of
/// `tokens` to its end; or the fault met while reading them.
pub open spec fn parse_sequence(tokens: Seq<TokenView>, at: int) -> Result<Seq<AstView>, ParseFault>
    decreases tokens.len() - at,
{
    if 0 <= at < tokens.len() {
        match parse_expression(tokens, at) {
            Err(fault) => Err(fault),
            Ok((first, next)) => {
                if at < next <= tokens.len() {
                    match parse_sequence(tokens, next) {
                        Err(fault) => Err(fault),
                        Ok(rest) => Ok(seq![first] + rest),
                    }
                } else {
                    // Not taken: an expression ends behind where it starts.
                    Ok(Seq::empty())
                }
            },
        }
    } else {
        Ok(Seq::empty())
    }
}

/// The program that `tokens` spell; or the first fault in them.
pub open spec fn parse_program(tokens: Seq<TokenView>) -> Result<AstView, ParseFault> {
    match parse_sequence(tokens, 0) {
        Ok(children) => Ok(AstView::Program(children)),
        Err(fault) => Err(fault),
    }
}

/// An expression ends behind where it starts, inside the tokens.
pub proof fn lemma_expression_advances(tokens: Seq<TokenView>, at: int)
    ensures
        parse_expression(tokens, at) matches Ok((_, next)) ==> 0 <= at < next <= tokens.len(),
    decreases tokens.len() - at, 1int,
{
    if 0 <= at < tokens.len() && is_open(tokens[at]) {
        lemma_call_advances(tokens, at);
    }
}

/// A call ends behind where it starts, inside the tokens.
pub proof fn lemma_call_advances(tokens: Seq<TokenView>, opened: int)
    ensures
        parse_call(tokens, opened) matches Ok((_, next)) ==> 0 <= opened < next <= tokens.len(),
    decreases tokens.len() - opened, 0int,
{
    if 0 <= opened && opened + 1 < tokens.len() {
        lemma_params_advance(tokens, opened, opened + 2);
    }
}

/// The parameters of a call end behind where they start, inside the tokens.
pub proof fn lemma_params_advance(tokens: Seq<TokenView>, opened: int, at: int)
    ensures
        parse_params(tokens, opened, at) matches Ok((_, end)) ==> 0 <= at < end <= tokens.len(),
    decreases tokens.len() - at, 2int,
{
    if 0 <= at < tokens.len() && !is_close(tokens[at]) {
        lemma_expression_advances(tokens, at);
        if let Ok((_, next)) = parse_expression(tokens, at) {
            lemma_params_advance(tokens, opened, next);
        }
    }
}

/// Copies the content of a string token out of its text.
pub fn unquote(text: &str) -> (content: String)
    ensures
        content@ == unquoted(text@),
{
    let len = text.unicode_len();
    let start: usize = if len > 0 && text.get_char(0) == '"' {
        1
    } else {
        0
    };
    let end: usize = if len > start && text.get_char(len - 1) == '"' {
        len - 1
    } else {
        len
    };
    assert(text@.subrange(start as int, end as int) =~= unquoted(text@));
    text.substring_char(start, end).to_owned()
}

/// A sequence of tokens that is read from front to back, one token at a
/// time, with a look at the token that comes next.
pub struct TokenStream<'t, 'a> {
    tokens: &'t [Token<'a>],
    position: usize,
}

impl<'t, 'a> TokenStream<'t, 'a> {
    /// All the tokens of the stream, read or not.
    pub closed spec fn source(&self) -> Seq<TokenView> {
        self.tokens.deep_view()
    }

    /// How many tokens were read.
    pub closed spec fn cursor(&self) -> int {
        self.position as int
    }

    /// A stream over `tokens`, with none of them read.
    pub fn new(tokens: &'t [Token<'a>]) -> (stream: Self)
        ensures
            stream.source() == tokens.deep_view(),
            stream.cursor() == 0,
    {
        TokenStream { tokens, position: 0 }
    }

    /// How many tokens were read.
    pub fn position(&self) -> (position: usize)
        ensures
            position == self.cursor(),
    {
        self.position
    }

    /// The next token, which stays unread; `None` where all were read.
    pub fn peek(&self) -> (token: Option<Token<'a>>)
        ensures
            0 <= self.cursor() < self.source().len() ==> ({
                &&& token matches Some(next)
                &&& next@ == self.source()[self.cursor()]
            }),
            self.cursor() >= self.source().len() ==> token is None,
    {
        if self.position < self.tokens.len() {
            Some(self.tokens[self.position])
        } else {
            None
        }
    }

    /// Reads the next token; `None` where all were read.
    pub fn next(&mut self) -> (token: Option<Token<'a>>)
        ensures
            final(self).source() == old(self).source(),
            0 <= old(self).cursor() < old(self).source().len() ==> ({
                &&& token matches Some(next)
                &&& next@ == old(self).source()[old(self).cursor()]
                &&& final(self).cursor() == old(self).cursor() + 1
            }),
            old(self).cursor() >= old(self).source().len() ==> ({
                &&& token is None
                &&& final(self).cursor() == old(self).cursor()
            }),
    {
        if self.position < self.tokens.len() {
            let token = self.tokens[self.position];
            self.position = self.position + 1;
            Some(token)
        } else {
            None
        }
    }
}

/// The result `rest` of reading the tail of a parameter list, behind the
/// parameters `done` that were read before it.
spec fn behind_params(
    done: Seq<AstView>,
    rest: Result<(Seq<AstView>, int), ParseFault>,
) -> Result<(Seq<AstView>, int), ParseFault> {
    match rest {
        Ok((params, end)) => Ok((done + params, end)),
        Err(fault) => Err(fault),
    }
}

/// The result `rest` of reading the tail of a program, behind the
/// expressions `done` that were read before it.
spec fn behind_sequence(done: Seq<AstView>, rest: Result<Seq<AstView>, ParseFault>) -> Result<
    Seq<AstView>,
    ParseFault,
> {
    match rest {
        Ok(children) => Ok(done + children),
        Err(fault) => Err(fault),
    }
}

/// Reads one expression from `tokens`: an integer, a string, or a call with
/// its parameters up to the parenthesis that closes it.
///
/// On success the stream stands behind the expression. On failure it stands
/// behind the token that was refused, or at its end where the tokens ran out.
///
/// Each parameter that is a call is read by a call of `walk` from inside
/// `walk`, so the stack grows with the depth of nesting in the tokens.
pub fn walk<'t, 'a>(tokens: &mut TokenStream<'t, 'a>) -> (result: Result<Ast, ParseError<'a>>)
    ensures
        final(tokens).source() == old(tokens).source(),
        result matches Ok(ast) ==> parse_expression(old(tokens).source(), old(tokens).cursor())
            == Ok::<(AstView, int), ParseFault>((ast@, final(tokens).cursor())),
        result matches Err(error) ==> parse_expression(
            old(tokens).source(),
            old(tokens).cursor(),
        ) == Err::<(AstView, int), ParseFault>(error@),
        result matches Err(error) ==> final(tokens).cursor() == error@.stopped_at(
            old(tokens).source().len() as int,
        ),
    decreases old(tokens).source().len() - old(tokens).cursor(),
{
    let ghost source = tokens.source();
    let position = tokens.position();
    let token = match tokens.next() {
        None => {
            return Err(ParseError::UnexpectedToken { position, found: None });
        },
        Some(token) => token,
    };
    match token {
        Token::Integer(text) => match parse_integer(text) {
            Some(value) => Ok(Ast::IntegerLiteral(value)),
            None => Err(ParseError::InvalidInteger { position, text }),
        },
        Token::Char(text) => Ok(Ast::StringLiteral(unquote(text))),
        Token::Paren('(') => {
            let name = match tokens.next() {
                None => {
                    return Err(ParseError::UnexpectedToken { position: position + 1, found: None });
                },
                Some(Token::Name(name)) => name.to_owned(),
                Some(found) => {
                    return Err(ParseError::MalformedCall { position: position + 1, found });
                },
            };
            let mut params: Vec<Ast> = Vec::new();
            proof {
                if let Ok((all, _)) = parse_params(source, position as int, position + 2) {
                    assert(params.deep_view() + all =~= all);
                }
            }
            loop
                invariant_except_break
                    position + 2 <= tokens.cursor() <= source.len(),
                    parse_params(source, position as int, position + 2) == behind_params(
                        params.deep_view(),
                        parse_params(source, position as int, tokens.cursor()),
                    ),
                invariant
                    source == old(tokens).source(),
                    position == old(tokens).cursor(),
                    position + 1 < source.len(),
                    is_open(source[position as int]),
                    source[position + 1] == TokenView::Name(name@),
                    tokens.source() == source,
                ensures
                    parse_params(source, position as int, position + 2) == Ok::<
                        (Seq<AstView>, int),
                        ParseFault,
                    >((params.deep_view(), tokens.cursor())),
                decreases source.len() - tokens.cursor(),
            {
                let ghost at = tokens.cursor();
                let ghost done = params.deep_view();
                match tokens.peek() {
                    None => {
                        return Err(ParseError::UnterminatedCall { opened: position });
                    },
                    Some(Token::Paren(')')) => {
                        let _ = tokens.next();
                        assert(done + Seq::<AstView>::empty() =~= done);
                        break ;
                    },
                    Some(_) => {
                        proof {
                            lemma_expression_advances(source, at);
                        }
                        match walk(tokens) {
                            Err(error) => {
                                return Err(error);
                            },
                            Ok(param) => {
                                params.push(param);
                                proof {
                                    assert(params.deep_view() =~= done.push(param@));
                                    if let Ok((rest, end)) = parse_params(
                                        source,
                                        position as int,
                                        tokens.cursor(),
                                    ) {
                                        assert(done + (seq![param@] + rest) =~= done.push(param@)
                                            + rest);
                                    }
                                }
                            },
                        }
                    },
                }
            }
            proof {
                lemma_call_view(name, params);
            }
            Ok(Ast::CallExpression { name, params })
        },
        found => Err(ParseError::UnexpectedToken { position, found: Some(found) }),
    }
}

/// Reads `tokens` as a program: expression after expression, until all tokens
/// are read. The result is one `Program` that holds the expressions in
/// their order. No tokens at all make an empty program.
pub fn parser<'a>(tokens: Vec<Token<'a>>) -> (result: Result<Ast, ParseError<'a>>)
    ensures
        result matches Ok(ast) ==> parse_program(tokens.deep_view()) == Ok::<AstView, ParseFault>(
            ast@,
        ),
        result matches Err(error) ==> parse_program(tokens.deep_view()) == Err::<
            AstView,
            ParseFault,
        >(error@),
{
    let ghost source = tokens.deep_view();
    let mut stream = TokenStream::new(tokens.as_slice());
    let mut body: Vec<Ast> = Vec::new();
    proof {
        if let Ok(all) = parse_sequence(source, 0) {
            assert(body.deep_view() + all =~= all);
        }
    }
    loop
        invariant_except_break
            0 <= stream.cursor() <= source.len(),
            parse_sequence(source, 0) == behind_sequence(
                body.deep_view(),
                parse_sequence(source, stream.cursor()),
            ),
        invariant
            source == tokens.deep_view(),
            stream.source() == source,
        ensures
            parse_sequence(source, 0) == Ok::<Seq<AstView>, ParseFault>(body.deep_view()),
        decreases source.len() - stream.cursor(),
    {
        let ghost at = stream.cursor();
        let ghost done = body.deep_view();
        if stream.peek().is_none() {
            assert(done + Seq::<AstView>::empty() =~= done);
            break ;
        }
        proof {
            lemma_expression_advances(source, at);
        }
        match walk(&mut stream) {
            Err(error) => {
                return Err(error);
            },
            Ok(expression) => {
                body.push(expression);
                proof {
                    assert(body.deep_view() =~= done.push(expression@));
                    if let Ok(rest) = parse_sequence(source, stream.cursor()) {
                        assert(done + (seq![expression@] + rest) =~= done.push(expression@) + rest);
                    }
                }
            },
        }
    }
    proof {
        lemma_program_view(body);
    }
    Ok(Ast::Program(body))
}

} // verus!
