use mal::parser::{tokenize, ParseError, Token};

#[test]
fn test_parser() {
    let input = "(+ 11 :a11y (* 36 4) \"hello\")";
    let tokens = tokenize(input).unwrap();
    assert_eq!(
        tokens,
        vec![
            Token::LParen,
            Token::Symbol("+".to_owned()),
            Token::Int(11),
            Token::Keyword("a11y".to_owned()),
            Token::LParen,
            Token::Symbol("*".to_owned()),
            Token::Int(36),
            Token::Int(4),
            Token::RParen,
            Token::String("hello".to_owned()),
            Token::RParen,
        ]
    )
}

#[test]
fn test_escape_sequences() {
    let input = r#""hello \" escaped \\ world\n""#;
    let tokens = tokenize(input).unwrap();
    assert_eq!(
        tokens,
        vec![Token::String("hello \" escaped \\ world\n".to_owned())]
    );
}

#[test]
fn test_just_a_comment() {
    let input = "; this is a comment";
    let tokens = tokenize(input).unwrap();
    assert_eq!(tokens, vec![]);
}

#[test]
fn tokenize_empty_text() {
    assert_eq!(tokenize("").unwrap(), vec![]);
    assert_eq!(tokenize("  ,\t\n ").unwrap(), vec![]);
}

#[test]
fn tokenize_comment_after_blanks() {
    assert_eq!(tokenize("  , ; (1 2").unwrap(), vec![]);
    assert_eq!(tokenize(";").unwrap(), vec![]);
}

#[test]
fn tokenize_comment_runs_to_the_end_of_its_line() {
    assert_eq!(
        tokenize("(1 ; 2)").unwrap(),
        vec![Token::LParen, Token::Int(1)]
    );
    assert_eq!(
        tokenize("(1 ; one\n 2) ; two").unwrap(),
        vec![Token::LParen, Token::Int(1), Token::Int(2), Token::RParen]
    );
    assert_eq!(
        tokenize("; first\n;; second\n\n  x ;").unwrap(),
        vec![Token::Symbol("x".to_owned())]
    );
    assert_eq!(tokenize("; a\r\n; b\n").unwrap(), vec![]);
}

#[test]
fn tokenize_semicolon_in_a_string_is_no_comment() {
    assert_eq!(
        tokenize("\"a;b\" c").unwrap(),
        vec![Token::String("a;b".to_owned()), Token::Symbol("c".to_owned())]
    );
}

#[test]
fn tokenize_error_after_a_comment() {
    assert_eq!(
        tokenize("; \\ is fine here\n \\"),
        Err(ParseError::UnexpectedCharacter {
            got: '\\',
            expected: None,
            pos: 18
        })
    );
}

#[test]
fn tokenize_structural_characters() {
    assert_eq!(
        tokenize("()[]{}'`@^~~@").unwrap(),
        vec![
            Token::LParen,
            Token::RParen,
            Token::LBracket,
            Token::RBracket,
            Token::LBrace,
            Token::RBrace,
            Token::Quote,
            Token::Quasiquote,
            Token::Deref,
            Token::WithMeta,
            Token::Unquote,
            Token::SpliceUnquote,
        ]
    );
}

#[test]
fn tokenize_unquote_before_other_characters() {
    assert_eq!(
        tokenize("~x ~ @").unwrap(),
        vec![
            Token::Unquote,
            Token::Symbol("x".to_owned()),
            Token::Unquote,
            Token::Deref,
        ]
    );
    assert_eq!(tokenize("~").unwrap(), vec![Token::Unquote]);
}

#[test]
fn tokenize_commas_are_blanks() {
    assert_eq!(
        tokenize("1,2,,3").unwrap(),
        vec![Token::Int(1), Token::Int(2), Token::Int(3)]
    );
}

#[test]
fn tokenize_keywords() {
    assert_eq!(
        tokenize(":abc :a-b :").unwrap(),
        vec![
            Token::Keyword("abc".to_owned()),
            Token::Keyword("a".to_owned()),
            Token::Symbol("-b".to_owned()),
            Token::Keyword("".to_owned()),
        ]
    );
}

#[test]
fn tokenize_named_atoms() {
    assert_eq!(
        tokenize("nil true false nile truefalse").unwrap(),
        vec![
            Token::Nil,
            Token::True,
            Token::False,
            Token::Symbol("nile".to_owned()),
            Token::Symbol("truefalse".to_owned()),
        ]
    );
}

#[test]
fn tokenize_integers() {
    assert_eq!(
        tokenize("0 -0 +7 007 -42 2147483647 -2147483648").unwrap(),
        vec![
            Token::Int(0),
            Token::Int(0),
            Token::Int(7),
            Token::Int(7),
            Token::Int(-42),
            Token::Int(2147483647),
            Token::Int(-2147483648),
        ]
    );
}

#[test]
fn tokenize_numerals_that_are_symbols() {
    assert_eq!(
        tokenize("2147483648 -2147483649 - + 1+ 1.5 --1 99999999999999999999999").unwrap(),
        vec![
            Token::Symbol("2147483648".to_owned()),
            Token::Symbol("-2147483649".to_owned()),
            Token::Symbol("-".to_owned()),
            Token::Symbol("+".to_owned()),
            Token::Symbol("1+".to_owned()),
            Token::Symbol("1.5".to_owned()),
            Token::Symbol("--1".to_owned()),
            Token::Symbol("99999999999999999999999".to_owned()),
        ]
    );
}

#[test]
fn tokenize_symbol_punctuation() {
    assert_eq!(
        tokenize("!\u{a3}$%&*-_=+<>.#|\u{ac}/?").unwrap(),
        vec![Token::Symbol("!\u{a3}$%&*-_=+<>.#|\u{ac}/?".to_owned())]
    );
}

#[test]
fn tokenize_letters_beyond_ascii() {
    assert_eq!(
        tokenize("\u{e9}t\u{e9} :\u{3b1}\u{3b2}").unwrap(),
        vec![
            Token::Symbol("\u{e9}t\u{e9}".to_owned()),
            Token::Keyword("\u{3b1}\u{3b2}".to_owned()),
        ]
    );
}

#[test]
fn tokenize_other_characters_beyond_ascii() {
    assert_eq!(
        tokenize("a \u{20ac}"),
        Err(ParseError::UnexpectedCharacter {
            got: '\u{20ac}',
            expected: None,
            pos: 2
        })
    );
    assert_eq!(
        tokenize(":k\u{2192}"),
        Err(ParseError::UnexpectedCharacter {
            got: '\u{2192}',
            expected: None,
            pos: 2
        })
    );
}

#[test]
fn tokenize_blanks_beyond_ascii() {
    assert_eq!(
        tokenize("a\u{a0}b\u{2003}c").unwrap(),
        vec![
            Token::Symbol("a".to_owned()),
            Token::Symbol("b".to_owned()),
            Token::Symbol("c".to_owned()),
        ]
    );
}

#[test]
fn tokenize_positions_count_characters() {
    assert_eq!(
        tokenize("\u{e9}\u{e9} \\"),
        Err(ParseError::UnexpectedCharacter {
            got: '\\',
            expected: None,
            pos: 3
        })
    );
}

#[test]
fn tokenize_unexpected_character() {
    assert_eq!(
        tokenize("(a \\ b)"),
        Err(ParseError::UnexpectedCharacter {
            got: '\\',
            expected: None,
            pos: 3
        })
    );
    assert_eq!(
        tokenize("\u{1}"),
        Err(ParseError::UnexpectedCharacter {
            got: '\u{1}',
            expected: None,
            pos: 0
        })
    );
}

#[test]
fn tokenize_unterminated_string() {
    assert_eq!(
        tokenize("\"abc"),
        Err(ParseError::UnexpectedEndOfInput(4))
    );
    assert_eq!(tokenize("\""), Err(ParseError::UnexpectedEndOfInput(1)));
    assert_eq!(
        tokenize("(1 \"ab\\"),
        Err(ParseError::UnexpectedEndOfInput(7))
    );
    assert_eq!(
        tokenize("\"ab\\\""),
        Err(ParseError::UnexpectedEndOfInput(5))
    );
}

#[test]
fn tokenize_unknown_escape_sequence() {
    assert_eq!(
        tokenize("\"a\\tb\""),
        Err(ParseError::UnknownEscapeSequence('t', 3))
    );
    assert_eq!(
        tokenize("  \"\\x"),
        Err(ParseError::UnknownEscapeSequence('x', 4))
    );
}

#[test]
fn tokenize_strings() {
    assert_eq!(
        tokenize("\"\" \"a b\" \"(;)\"").unwrap(),
        vec![
            Token::String("".to_owned()),
            Token::String("a b".to_owned()),
            Token::String("(;)".to_owned()),
        ]
    );
    assert_eq!(
        tokenize("\"a\"b").unwrap(),
        vec![Token::String("a".to_owned()), Token::Symbol("b".to_owned())]
    );
}

#[test]
fn token_equality_and_clone() {
    let token = Token::Symbol("abc".to_owned());
    assert_eq!(token.clone(), token);
    assert_ne!(token, Token::Keyword("abc".to_owned()));
    assert_ne!(token, Token::Symbol("abd".to_owned()));
    assert_ne!(Token::Int(1), Token::Int(2));
    assert_ne!(Token::LParen, Token::RParen);
    assert_eq!(Token::Nil.clone(), Token::Nil);
}
