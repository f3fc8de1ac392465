use sexpr_front::{parser, tokenizer, unquote, walk, Ast, ParseError, Token, TokenStream};

fn call(name: &str, params: Vec<Ast>) -> Ast {
    Ast::CallExpression { name: name.to_string(), params }
}

fn text(content: &str) -> Ast {
    Ast::StringLiteral(content.to_string())
}

fn parse(input: &str) -> Result<Ast, ParseError<'_>> {
    parser(tokenizer(input).unwrap())
}

#[test]
fn nested_call_is_parsed_into_nested_calls() {
    let tokens = tokenizer("(add 2 (subtract 4 2))").unwrap();
    let ast = parser(tokens).unwrap();
    assert_eq!(
        ast,
        Ast::Program(vec![call(
            "add",
            vec![
                Ast::IntegerLiteral(2),
                call("subtract", vec![Ast::IntegerLiteral(4), Ast::IntegerLiteral(2)]),
            ]
        )])
    );
}

#[test]
fn empty_input_is_an_empty_program() {
    let tokens = tokenizer("").unwrap();
    assert_eq!(tokens, vec![]);
    assert_eq!(parser(tokens), Ok(Ast::Program(vec![])));
}

#[test]
fn lone_integer_is_a_program_of_one_literal() {
    let tokens = tokenizer("42").unwrap();
    assert_eq!(tokens, vec![Token::Integer("42")]);
    assert_eq!(parser(tokens), Ok(Ast::Program(vec![Ast::IntegerLiteral(42)])));
}

#[test]
fn string_parameter_loses_its_quotes() {
    let tokens = tokenizer("(greet \"hi\")").unwrap();
    assert_eq!(
        tokens,
        vec![Token::Paren('('), Token::Name("greet"), Token::Char("\"hi\""), Token::Paren(')')]
    );
    assert_eq!(parser(tokens), Ok(Ast::Program(vec![call("greet", vec![text("hi")])])));
}

#[test]
fn call_without_closing_parenthesis_is_unterminated() {
    assert_eq!(parse("(foo"), Err(ParseError::UnterminatedCall { opened: 0 }));
    assert_eq!(parse("(foo 1 (bar 2)"), Err(ParseError::UnterminatedCall { opened: 0 }));
    assert_eq!(parse("(foo 1 (bar 2"), Err(ParseError::UnterminatedCall { opened: 3 }));
}

#[test]
fn call_without_name_is_malformed() {
    assert_eq!(
        parse("(1 foo)"),
        Err(ParseError::MalformedCall { position: 1, found: Token::Integer("1") })
    );
    assert_eq!(
        parse("(a ())"),
        Err(ParseError::MalformedCall { position: 3, found: Token::Paren(')') })
    );
    assert_eq!(
        parse("((a))"),
        Err(ParseError::MalformedCall { position: 1, found: Token::Paren('(') })
    );
    assert_eq!(
        parse("(\"a\")"),
        Err(ParseError::MalformedCall { position: 1, found: Token::Char("\"a\"") })
    );
}

#[test]
fn token_that_starts_no_expression_is_unexpected() {
    assert_eq!(
        parse(")"),
        Err(ParseError::UnexpectedToken { position: 0, found: Some(Token::Paren(')')) })
    );
    assert_eq!(
        parse("(a) )"),
        Err(ParseError::UnexpectedToken { position: 3, found: Some(Token::Paren(')')) })
    );
    assert_eq!(
        parse("foo"),
        Err(ParseError::UnexpectedToken { position: 0, found: Some(Token::Name("foo")) })
    );
    assert_eq!(
        parse("(a b)"),
        Err(ParseError::UnexpectedToken { position: 2, found: Some(Token::Name("b")) })
    );
    assert_eq!(
        parser(vec![Token::Integer("1"), Token::Whitespace]),
        Err(ParseError::UnexpectedToken { position: 1, found: Some(Token::Whitespace) })
    );
    assert_eq!(
        parser(vec![Token::Paren('[')]),
        Err(ParseError::UnexpectedToken { position: 0, found: Some(Token::Paren('[')) })
    );
}

#[test]
fn end_of_tokens_where_one_is_needed_is_unexpected() {
    assert_eq!(parse("("), Err(ParseError::UnexpectedToken { position: 1, found: None }));
    assert_eq!(parse("(a ("), Err(ParseError::UnexpectedToken { position: 3, found: None }));
    let mut stream = TokenStream::new(&[]);
    assert_eq!(walk(&mut stream), Err(ParseError::UnexpectedToken { position: 0, found: None }));
    assert_eq!(stream.position(), 0);
}

#[test]
fn integer_that_fits_no_i64_is_invalid() {
    assert_eq!(parse("9223372036854775807"), Ok(Ast::Program(vec![Ast::IntegerLiteral(i64::MAX)])));
    assert_eq!(
        parse("(a 9223372036854775808)"),
        Err(ParseError::InvalidInteger { position: 2, text: "9223372036854775808" })
    );
    assert_eq!(
        parser(vec![Token::Integer("12x")]),
        Err(ParseError::InvalidInteger { position: 0, text: "12x" })
    );
    assert_eq!(
        parser(vec![Token::Integer("")]),
        Err(ParseError::InvalidInteger { position: 0, text: "" })
    );
}

#[test]
fn integer_token_may_carry_a_sign() {
    assert_eq!(
        parser(vec![Token::Integer("-12"), Token::Integer("+3")]),
        Ok(Ast::Program(vec![Ast::IntegerLiteral(-12), Ast::IntegerLiteral(3)]))
    );
}

#[test]
fn expressions_side_by_side_are_the_children_of_the_program() {
    assert_eq!(
        parse("1 \"two\" (three) 4"),
        Ok(Ast::Program(vec![
            Ast::IntegerLiteral(1),
            text("two"),
            call("three", vec![]),
            Ast::IntegerLiteral(4),
        ]))
    );
}

#[test]
fn call_may_have_no_parameters() {
    assert_eq!(parse("(f)"), Ok(Ast::Program(vec![call("f", vec![])])));
}

#[test]
fn parameters_keep_their_order_and_their_depth() {
    assert_eq!(
        parse("(a (b 1 (c 2 3) 4) (d) 5) (e (f (g (h))))"),
        Ok(Ast::Program(vec![
            call(
                "a",
                vec![
                    call(
                        "b",
                        vec![
                            Ast::IntegerLiteral(1),
                            call("c", vec![Ast::IntegerLiteral(2), Ast::IntegerLiteral(3)]),
                            Ast::IntegerLiteral(4),
                        ]
                    ),
                    call("d", vec![]),
                    Ast::IntegerLiteral(5),
                ]
            ),
            call("e", vec![call("f", vec![call("g", vec![call("h", vec![])])])]),
        ]))
    );
}

fn depth(ast: &Ast) -> usize {
    match ast {
        Ast::Program(children) => children.iter().map(depth).max().unwrap_or(0),
        Ast::CallExpression { params, .. } => 1 + params.iter().map(depth).max().unwrap_or(0),
        _ => 0,
    }
}

#[test]
fn tree_is_as_deep_as_the_parentheses() {
    let inputs = ["", "1 2", "(a)", "(a (b)) (c)", "(a 1 (b 2 (c 3 (d 4))) (e))", "(a (b)) (c (d (e)))"];
    for input in inputs {
        let tokens = tokenizer(input).unwrap();
        let mut open = 0usize;
        let mut deepest = 0usize;
        for token in &tokens {
            match token {
                Token::Paren('(') => {
                    open += 1;
                    deepest = deepest.max(open);
                }
                Token::Paren(')') => open -= 1,
                _ => {}
            }
        }
        let ast = parser(tokens).unwrap();
        assert_eq!(open, 0);
        assert_eq!(depth(&ast), deepest);
    }
    assert_eq!(depth(&parse("(a 1 (b 2 (c 3 (d 4))) (e))").unwrap()), 4);
}

#[test]
fn deep_nesting_is_read() {
    let depth = 200;
    let mut input = String::new();
    for _ in 0..depth {
        input.push_str("(f ");
    }
    input.push('1');
    for _ in 0..depth {
        input.push(')');
    }
    let mut expected = Ast::IntegerLiteral(1);
    for _ in 0..depth {
        expected = call("f", vec![expected]);
    }
    assert_eq!(parse(&input), Ok(Ast::Program(vec![expected])));
}

#[test]
fn walk_reads_one_expression_and_stops_behind_it() {
    let tokens = tokenizer("(a 1) 2").unwrap();
    let mut stream = TokenStream::new(&tokens);
    assert_eq!(stream.position(), 0);
    assert_eq!(stream.peek(), Some(Token::Paren('(')));
    assert_eq!(walk(&mut stream), Ok(call("a", vec![Ast::IntegerLiteral(1)])));
    assert_eq!(stream.position(), 4);
    assert_eq!(walk(&mut stream), Ok(Ast::IntegerLiteral(2)));
    assert_eq!(stream.position(), 5);
    assert_eq!(stream.peek(), None);
    assert_eq!(walk(&mut stream), Err(ParseError::UnexpectedToken { position: 5, found: None }));
    assert_eq!(stream.position(), 5);
}

#[test]
fn walk_stops_behind_the_token_that_it_refuses() {
    let tokens = tokenizer("(a 1 (2 3)) 4").unwrap();
    let mut stream = TokenStream::new(&tokens);
    assert_eq!(
        walk(&mut stream),
        Err(ParseError::MalformedCall { position: 4, found: Token::Integer("2") })
    );
    assert_eq!(stream.position(), 5);

    let tokens = tokenizer("(a 1").unwrap();
    let mut stream = TokenStream::new(&tokens);
    assert_eq!(walk(&mut stream), Err(ParseError::UnterminatedCall { opened: 0 }));
    assert_eq!(stream.position(), 3);

    let tokens = tokenizer(") 1").unwrap();
    let mut stream = TokenStream::new(&tokens);
    assert_eq!(
        walk(&mut stream),
        Err(ParseError::UnexpectedToken { position: 0, found: Some(Token::Paren(')')) })
    );
    assert_eq!(stream.position(), 1);

    let tokens = vec![Token::Integer("x"), Token::Integer("1")];
    let mut stream = TokenStream::new(&tokens);
    assert_eq!(walk(&mut stream), Err(ParseError::InvalidInteger { position: 0, text: "x" }));
    assert_eq!(stream.position(), 1);
}

#[test]
fn well_formed_input_is_read_to_its_last_token() {
    let inputs = ["1", "(a)", "(a 1 \"b\" (c))", "(a) (b 2) 3 \"s\""];
    for input in inputs {
        let tokens = tokenizer(input).unwrap();
        let mut stream = TokenStream::new(&tokens);
        let mut read = Vec::new();
        while stream.peek().is_some() {
            read.push(walk(&mut stream).unwrap());
            assert!(stream.position() <= tokens.len());
        }
        assert_eq!(stream.position(), tokens.len());
        assert_eq!(parser(tokens.clone()), Ok(Ast::Program(read)));
    }
}

#[test]
fn stream_hands_out_each_token_once() {
    let tokens = vec![Token::Name("a"), Token::Integer("1")];
    let mut stream = TokenStream::new(&tokens);
    assert_eq!(stream.peek(), Some(Token::Name("a")));
    assert_eq!(stream.next(), Some(Token::Name("a")));
    assert_eq!(stream.position(), 1);
    assert_eq!(stream.next(), Some(Token::Integer("1")));
    assert_eq!(stream.position(), 2);
    assert_eq!(stream.peek(), None);
    assert_eq!(stream.next(), None);
    assert_eq!(stream.position(), 2);
}

#[test]
fn unquote_takes_one_quote_from_each_end() {
    assert_eq!(unquote("\"hi\""), "hi");
    assert_eq!(unquote("\"\""), "");
    assert_eq!(unquote("\""), "");
    assert_eq!(unquote(""), "");
    assert_eq!(unquote("\"hi"), "hi");
    assert_eq!(unquote("hi\""), "hi");
    assert_eq!(unquote("hi"), "hi");
    assert_eq!(unquote("\"\"a\"\""), "\"a\"");
    assert_eq!(unquote("\"é 京\""), "é 京");
}

#[test]
fn string_token_without_quotes_is_taken_as_it_is() {
    assert_eq!(
        parser(vec![Token::Char("plain"), Token::Char("\"open")]),
        Ok(Ast::Program(vec![text("plain"), text("open")]))
    );
}
