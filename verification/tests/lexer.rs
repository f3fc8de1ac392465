use sexpr_front::{classify, scan, tokenizer, CharClass, LexError, Lexeme, ScanError, Token, TokenKind};

#[test]
fn nested_call_is_cut_into_nine_tokens() {
    let tokens = tokenizer("(add 2 (subtract 4 2))").unwrap();
    assert_eq!(
        tokens,
        vec![
            Token::Paren('('),
            Token::Name("add"),
            Token::Integer("2"),
            Token::Paren('('),
            Token::Name("subtract"),
            Token::Integer("4"),
            Token::Integer("2"),
            Token::Paren(')'),
            Token::Paren(')'),
        ]
    );
}

#[test]
fn empty_input_has_no_tokens() {
    assert_eq!(tokenizer(""), Ok(vec![]));
}

#[test]
fn white_space_alone_has_no_tokens() {
    assert_eq!(tokenizer(" \t\r\n \u{a0}\u{2003}"), Ok(vec![]));
}

#[test]
fn digits_are_one_integer() {
    assert_eq!(tokenizer("42"), Ok(vec![Token::Integer("42")]));
}

#[test]
fn string_token_holds_both_quotes() {
    assert_eq!(
        tokenizer("(greet \"hi\")"),
        Ok(vec![
            Token::Paren('('),
            Token::Name("greet"),
            Token::Char("\"hi\""),
            Token::Paren(')'),
        ])
    );
}

#[test]
fn string_may_hold_anything_but_a_quote() {
    assert_eq!(
        tokenizer("\"a (b) 12 #\\ \n\"x"),
        Ok(vec![Token::Char("\"a (b) 12 #\\ \n\""), Token::Name("x")])
    );
}

#[test]
fn empty_string_is_two_quotes() {
    assert_eq!(tokenizer("\"\""), Ok(vec![Token::Char("\"\"")]));
}

#[test]
fn strings_side_by_side_stay_apart() {
    assert_eq!(
        tokenizer("\"a\"\"b\""),
        Ok(vec![Token::Char("\"a\""), Token::Char("\"b\"")])
    );
}

#[test]
fn digits_then_letters_split() {
    assert_eq!(tokenizer("2a"), Ok(vec![Token::Integer("2"), Token::Name("a")]));
}

#[test]
fn letters_then_digits_split() {
    assert_eq!(tokenizer("a2"), Ok(vec![Token::Name("a"), Token::Integer("2")]));
}

#[test]
fn adjacent_texts_merge_only_into_their_own_kind() {
    let texts = ["12", "ab", "(", ")", "\"s\""];
    for first in texts {
        for second in texts {
            let one = tokenizer(first).unwrap();
            let other = tokenizer(second).unwrap();
            assert_eq!(one.len(), 1);
            assert_eq!(other.len(), 1);
            let joined = format!("{}{}", first, second);
            let tokens = tokenizer(&joined).unwrap();
            let same_run = one[0].kind() == other[0].kind()
                && (one[0].kind() == TokenKind::Integer || one[0].kind() == TokenKind::Name);
            if same_run {
                assert_eq!(tokens.len(), 1);
                assert_eq!(tokens[0].kind(), one[0].kind());
            } else {
                assert_eq!(tokens, vec![one[0], other[0]]);
            }
        }
    }
    assert_eq!(tokenizer("1234"), Ok(vec![Token::Integer("1234")]));
    assert_eq!(tokenizer("abcd"), Ok(vec![Token::Name("abcd")]));
}

#[test]
fn names_may_be_of_any_alphabet() {
    assert_eq!(
        tokenizer("(京都 été)"),
        Ok(vec![Token::Paren('('), Token::Name("京都"), Token::Name("été"), Token::Paren(')')])
    );
}

#[test]
fn no_result_holds_white_space() {
    let inputs = ["", " ", "a b", " ( a 1 \"x y\" ) ", "\n\n1\t2\r\n", "(a(b(c)))"];
    for input in inputs {
        let tokens = tokenizer(input).unwrap();
        for token in &tokens {
            assert_ne!(*token, Token::Whitespace);
            assert_ne!(token.kind(), TokenKind::Whitespace);
        }
    }
}

#[test]
fn unexpected_character_is_reported_with_its_position() {
    assert_eq!(
        tokenizer("(add 2 #)"),
        Err(LexError::UnexpectedCharacter { character: '#', position: 7 })
    );
}

#[test]
fn positions_count_characters_not_bytes() {
    assert_eq!(
        tokenizer("é 京 +"),
        Err(LexError::UnexpectedCharacter { character: '+', position: 4 })
    );
    assert_eq!(tokenizer("é \"京"), Err(LexError::UnterminatedString { position: 2 }));
}

#[test]
fn first_fault_wins() {
    assert_eq!(
        tokenizer("a # \"b"),
        Err(LexError::UnexpectedCharacter { character: '#', position: 2 })
    );
    assert_eq!(tokenizer("a \"b # "), Err(LexError::UnterminatedString { position: 2 }));
}

#[test]
fn unclosed_string_is_unterminated() {
    assert_eq!(tokenizer("(a \"bc"), Err(LexError::UnterminatedString { position: 3 }));
    assert_eq!(tokenizer("\""), Err(LexError::UnterminatedString { position: 0 }));
    assert_eq!(tokenizer("\"a\"\""), Err(LexError::UnterminatedString { position: 3 }));
}

#[test]
fn signs_and_punctuation_start_no_token() {
    assert_eq!(
        tokenizer("-1"),
        Err(LexError::UnexpectedCharacter { character: '-', position: 0 })
    );
    assert_eq!(
        tokenizer("a_b"),
        Err(LexError::UnexpectedCharacter { character: '_', position: 1 })
    );
    assert_eq!(
        tokenizer("١"),
        Err(LexError::UnexpectedCharacter { character: '١', position: 0 })
    );
}

#[test]
fn characters_are_classified_in_a_fixed_order() {
    assert_eq!(CharClass::of('('), CharClass::Paren);
    assert_eq!(CharClass::of(')'), CharClass::Paren);
    assert_eq!(CharClass::of('"'), CharClass::Quote);
    assert_eq!(CharClass::of(' '), CharClass::Whitespace);
    assert_eq!(CharClass::of('\n'), CharClass::Whitespace);
    assert_eq!(CharClass::of('\u{a0}'), CharClass::Whitespace);
    assert_eq!(CharClass::of('0'), CharClass::Digit);
    assert_eq!(CharClass::of('9'), CharClass::Digit);
    assert_eq!(CharClass::of('x'), CharClass::Letter);
    assert_eq!(CharClass::of('Z'), CharClass::Letter);
    assert_eq!(CharClass::of('京'), CharClass::Letter);
    assert_eq!(CharClass::of('#'), CharClass::Other);
    assert_eq!(CharClass::of('['), CharClass::Other);
    assert_eq!(CharClass::of('💝'), CharClass::Other);
}

#[test]
fn earlier_test_decides_the_class() {
    assert_eq!(CharClass::from_tests('(', true, true), CharClass::Paren);
    assert_eq!(CharClass::from_tests('"', true, true), CharClass::Quote);
    assert_eq!(CharClass::from_tests('5', true, true), CharClass::Whitespace);
    assert_eq!(CharClass::from_tests('5', false, true), CharClass::Digit);
    assert_eq!(CharClass::from_tests('x', false, true), CharClass::Letter);
    assert_eq!(CharClass::from_tests('x', false, false), CharClass::Other);
}

#[test]
fn classify_gives_one_class_for_each_character() {
    assert_eq!(
        classify("(é 1\")"),
        vec![
            CharClass::Paren,
            CharClass::Letter,
            CharClass::Whitespace,
            CharClass::Digit,
            CharClass::Quote,
            CharClass::Paren,
        ]
    );
    assert_eq!(classify(""), vec![]);
}

#[test]
fn scan_cuts_classes_into_lexemes() {
    let classes = [
        CharClass::Paren,
        CharClass::Letter,
        CharClass::Letter,
        CharClass::Whitespace,
        CharClass::Digit,
        CharClass::Digit,
        CharClass::Letter,
        CharClass::Quote,
        CharClass::Paren,
        CharClass::Quote,
        CharClass::Paren,
    ];
    assert_eq!(
        scan(&classes),
        Ok(vec![
            Lexeme { kind: TokenKind::Paren, start: 0, end: 1 },
            Lexeme { kind: TokenKind::Name, start: 1, end: 3 },
            Lexeme { kind: TokenKind::Integer, start: 4, end: 6 },
            Lexeme { kind: TokenKind::Name, start: 6, end: 7 },
            Lexeme { kind: TokenKind::Char, start: 7, end: 10 },
            Lexeme { kind: TokenKind::Paren, start: 10, end: 11 },
        ])
    );
    assert_eq!(scan(&[]), Ok(vec![]));
}

#[test]
fn scan_reports_the_first_fault() {
    assert_eq!(
        scan(&[CharClass::Digit, CharClass::Other, CharClass::Quote]),
        Err(ScanError::UnexpectedCharacter { position: 1 })
    );
    assert_eq!(
        scan(&[CharClass::Digit, CharClass::Quote, CharClass::Letter, CharClass::Other]),
        Err(ScanError::UnterminatedString { position: 1 })
    );
}

#[test]
fn token_text_is_the_input_at_the_span_of_its_lexeme() {
    let input = "(add 20 (sub x1 \"a b\"))  7";
    let classes = classify(input);
    let lexemes = scan(&classes).unwrap();
    let tokens = tokenizer(input).unwrap();
    assert_eq!(lexemes.len(), tokens.len());
    for (lexeme, token) in lexemes.iter().zip(tokens.iter()) {
        let slice = &input[lexeme.start..lexeme.end];
        assert_eq!(token.kind(), lexeme.kind);
        match *token {
            Token::Paren(c) => assert_eq!(slice, c.to_string()),
            Token::Name(text) | Token::Integer(text) | Token::Char(text) => assert_eq!(slice, text),
            Token::Whitespace => unreachable!(),
        }
        let class = match lexeme.kind {
            TokenKind::Integer => CharClass::Digit,
            TokenKind::Name => CharClass::Letter,
            _ => continue,
        };
        for position in lexeme.start..lexeme.end {
            assert_eq!(classes[position], class);
        }
        if lexeme.start > 0 {
            assert_ne!(classes[lexeme.start - 1], class);
        }
        if lexeme.end < classes.len() {
            assert_ne!(classes[lexeme.end], class);
        }
    }
    assert_eq!(
        lexemes[6],
        Lexeme { kind: TokenKind::Integer, start: 14, end: 15 }
    );
    assert_eq!(tokens[5], Token::Name("x"));
    assert_eq!(tokens[7], Token::Char("\"a b\""));
}

#[test]
fn token_knows_its_kind() {
    assert_eq!(Token::Paren('(').kind(), TokenKind::Paren);
    assert_eq!(Token::Name("a").kind(), TokenKind::Name);
    assert_eq!(Token::Integer("1").kind(), TokenKind::Integer);
    assert_eq!(Token::Char("\"\"").kind(), TokenKind::Char);
    assert_eq!(Token::Whitespace.kind(), TokenKind::Whitespace);
}
