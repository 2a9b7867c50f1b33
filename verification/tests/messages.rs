use mal::parser::{tokenize, ParseError, Token};
use mal::reader::{read_str, ReadError};
use mal::types::{Atom, Value};

#[test]
fn parse_error_messages() {
    assert_eq!(
        ParseError::UnexpectedCharacter {
            got: '\\',
            expected: None,
            pos: 3
        }
        .message(),
        "unexpected character: \\ at position 3"
    );
    assert_eq!(
        ParseError::UnexpectedCharacter {
            got: 'x',
            expected: Some('"'),
            pos: 12
        }
        .message(),
        "unexpected character: x at position 12, expected: \""
    );
    assert_eq!(
        ParseError::UnexpectedEndOfInput(0).message(),
        "unexpected end of input at position 0"
    );
    assert_eq!(
        ParseError::UnknownEscapeSequence('t', 105).message(),
        "unknown escape sequence: \\t at position 105"
    );
}

#[test]
fn parse_int_error_message() {
    let inner = "x".parse::<i32>().unwrap_err();
    let expected = format!("parse int error at position 7: {inner}");
    assert_eq!(ParseError::ParseInt(inner, 7).message(), expected);
}

#[test]
fn read_error_messages() {
    assert_eq!(
        ReadError::UnexpectedToken {
            got: Token::RParen,
            expected: None,
            pos: 1
        }
        .message(),
        "unexpected token: RParen at position 1"
    );
    assert_eq!(
        ReadError::UnexpectedToken {
            got: Token::Symbol("a\"b".to_owned()),
            expected: Some(Token::Int(-3)),
            pos: 20
        }
        .message(),
        "unexpected token: Symbol(\"a\\\"b\") at position 20, expected Int(-3)"
    );
    assert_eq!(
        ReadError::UnexpectedEndOfInput(3).message(),
        "unexpected end of input at position 3"
    );
    assert_eq!(
        ReadError::UnhashableType(Value::List(vec![]), 6).message(),
        "unhashable type list at position 6"
    );
    assert_eq!(
        ReadError::UnhashableType(Value::Vector(vec![]), 6).message(),
        "unhashable type vector at position 6"
    );
    assert_eq!(
        ReadError::UnhashableType(Value::HashMap(vec![]), 6).message(),
        "unhashable type hashmap at position 6"
    );
    assert_eq!(
        ReadError::UnhashableType(Value::Atom(Atom::Nil), 6).message(),
        "unhashable type atom at position 6"
    );
    assert_eq!(
        ReadError::UnevenHashMap(5).message(),
        "odd number of elements for hashmap at position 5"
    );
    assert_eq!(
        ReadError::Parse(ParseError::UnexpectedEndOfInput(4)).message(),
        "unexpected end of input at position 4"
    );
    assert_eq!(ReadError::NoInput.message(), "");
}

#[test]
fn messages_of_errors_that_reading_gives() {
    assert_eq!(
        read_str("(1 2").unwrap_err().message(),
        "unexpected end of input at position 3"
    );
    assert_eq!(
        read_str("]").unwrap_err().message(),
        "unexpected token: RBracket at position 1"
    );
    assert_eq!(
        tokenize("\"\\a\"").unwrap_err().message(),
        "unknown escape sequence: \\a at position 2"
    );
}

#[test]
fn token_debug_is_the_derived_format() {
    let tokens = vec![
        Token::LParen,
        Token::RParen,
        Token::LBracket,
        Token::RBracket,
        Token::LBrace,
        Token::RBrace,
        Token::Quote,
        Token::Quasiquote,
        Token::Unquote,
        Token::SpliceUnquote,
        Token::Deref,
        Token::WithMeta,
        Token::Symbol("abc".to_owned()),
        Token::Symbol("".to_owned()),
        Token::Keyword("k\u{e9}".to_owned()),
        Token::String("a\"b\\c\nd\t\u{1}".to_owned()),
        Token::Int(0),
        Token::Int(-2147483648),
        Token::Int(77),
        Token::Nil,
        Token::True,
        Token::False,
    ];
    for token in tokens {
        assert_eq!(token.debug(), format!("{token:?}"));
    }
}

#[test]
fn token_debug_of_texts() {
    assert_eq!(
        Token::String("a\"b".to_owned()).debug(),
        "String(\"a\\\"b\")"
    );
    assert_eq!(Token::Keyword("k".to_owned()).debug(), "Keyword(\"k\")");
    assert_eq!(Token::Int(12).debug(), "Int(12)");
}
