use mal::parser::{ParseError, Token};
use mal::reader::{read_str, ReadError};
use mal::types::{Atom, Value};

fn sym(name: &str) -> Value {
    Value::Atom(Atom::Symbol(name.to_owned()))
}

fn num(n: i32) -> Value {
    Value::Atom(Atom::Int(n))
}

fn key(name: &str) -> Atom {
    Atom::Keyword(name.to_owned())
}

#[test]
fn test_read_str() {
    let input = "(+ 5 :a11y nil true false (* 34 8) \"hello\")";
    let value = read_str(input).unwrap();
    let expected = Value::List(vec![
        Value::Atom(Atom::Symbol("+".to_owned())),
        Value::Atom(Atom::Int(5)),
        Value::Atom(Atom::Keyword("a11y".to_owned())),
        Value::Atom(Atom::Nil),
        Value::Atom(Atom::True),
        Value::Atom(Atom::False),
        Value::List(vec![
            Value::Atom(Atom::Symbol("*".to_owned())),
            Value::Atom(Atom::Int(34)),
            Value::Atom(Atom::Int(8)),
        ]),
        Value::Atom(Atom::String("hello".to_owned())),
    ]);
    assert_eq!(value, expected);
}

#[test]
fn test_read_just_a_comment() {
    let input = "; this is a comment";
    let value = read_str(input);
    assert_eq!(value, Err(ReadError::NoInput));
}

#[test]
fn read_empty_text_is_no_input() {
    assert_eq!(read_str(""), Err(ReadError::NoInput));
    assert_eq!(read_str(" , \n"), Err(ReadError::NoInput));
    assert_eq!(read_str("  ;; (1 2)"), Err(ReadError::NoInput));
}

#[test]
fn read_after_a_comment() {
    assert_eq!(read_str("; five\n5").unwrap(), num(5));
    assert_eq!(
        read_str("(1 ; one\n2 ; two\n)").unwrap(),
        Value::List(vec![num(1), num(2)])
    );
    assert_eq!(read_str("(1 ; 2)"), Err(ReadError::UnexpectedEndOfInput(2)));
    assert_eq!(read_str("; a\n ; b\n"), Err(ReadError::NoInput));
}

#[test]
fn read_nested_list() {
    let value = read_str("(+ 11 :a11y (* 36 4) \"hello\")").unwrap();
    let expected = Value::List(vec![
        sym("+"),
        num(11),
        Value::Atom(key("a11y")),
        Value::List(vec![sym("*"), num(36), num(4)]),
        Value::Atom(Atom::String("hello".to_owned())),
    ]);
    assert_eq!(value, expected);
}

#[test]
fn read_hash_map() {
    let value = read_str("{ :a 1 :b 2 }").unwrap();
    let expected = Value::HashMap(vec![(key("a"), num(1)), (key("b"), num(2))]);
    assert_eq!(value, expected);
    let reordered = Value::HashMap(vec![(key("b"), num(2)), (key("a"), num(1))]);
    assert_eq!(value, reordered);
    let other = Value::HashMap(vec![(key("a"), num(1)), (key("b"), num(3))]);
    assert_ne!(value, other);
    let shorter = Value::HashMap(vec![(key("a"), num(1))]);
    assert_ne!(value, shorter);
    assert_ne!(shorter, value);
}

#[test]
fn read_hash_map_later_value_replaces_earlier() {
    let value = read_str("{:a 1 :b 2 :a 3}").unwrap();
    match &value {
        Value::HashMap(entries) => {
            assert_eq!(entries.len(), 2);
            assert_eq!(entries[0], (key("a"), num(3)));
            assert_eq!(entries[1], (key("b"), num(2)));
        }
        _ => panic!("no hash-map"),
    }
    assert_eq!(
        value,
        Value::HashMap(vec![(key("b"), num(2)), (key("a"), num(3))])
    );
}

#[test]
fn read_hash_map_with_any_atom_as_key() {
    let value = read_str("{1 a \"s\" [] nil {} x true}").unwrap();
    let expected = Value::HashMap(vec![
        (Atom::Int(1), sym("a")),
        (Atom::String("s".to_owned()), Value::Vector(vec![])),
        (Atom::Nil, Value::HashMap(vec![])),
        (Atom::Symbol("x".to_owned()), Value::Atom(Atom::True)),
    ]);
    assert_eq!(value, expected);
}

#[test]
fn read_unterminated_list() {
    assert_eq!(read_str("(1 2"), Err(ReadError::UnexpectedEndOfInput(3)));
    assert_eq!(read_str("["), Err(ReadError::UnexpectedEndOfInput(1)));
    assert_eq!(read_str("{:a (1"), Err(ReadError::UnexpectedEndOfInput(4)));
}

#[test]
fn read_uneven_hash_map() {
    assert_eq!(read_str("{ :a 1 :b }"), Err(ReadError::UnevenHashMap(5)));
    assert_eq!(read_str("{(1)}"), Err(ReadError::UnevenHashMap(5)));
}

#[test]
fn read_unhashable_key() {
    assert_eq!(
        read_str("{(1) 2}"),
        Err(ReadError::UnhashableType(Value::List(vec![num(1)]), 6))
    );
    assert_eq!(
        read_str("{:a 1 [] 2 {} 3 :b}"),
        Err(ReadError::UnhashableType(Value::Vector(vec![]), 11))
    );
    assert_eq!(
        read_str("{{} 1}"),
        Err(ReadError::UnhashableType(Value::HashMap(vec![]), 5))
    );
}

#[test]
fn read_quote() {
    assert_eq!(
        read_str("'x").unwrap(),
        Value::List(vec![sym("quote"), sym("x")])
    );
}

#[test]
fn read_with_meta() {
    assert_eq!(
        read_str("^{:a 1} x").unwrap(),
        Value::List(vec![
            sym("with-meta"),
            sym("x"),
            Value::HashMap(vec![(key("a"), num(1))]),
        ])
    );
}

#[test]
fn read_reader_macros() {
    assert_eq!(
        read_str("`(a ~b ~@c @d)").unwrap(),
        Value::List(vec![
            sym("quasiquote"),
            Value::List(vec![
                sym("a"),
                Value::List(vec![sym("unquote"), sym("b")]),
                Value::List(vec![sym("splice-unquote"), sym("c")]),
                Value::List(vec![sym("deref"), sym("d")]),
            ]),
        ])
    );
    assert_eq!(
        read_str("''x").unwrap(),
        Value::List(vec![
            sym("quote"),
            Value::List(vec![sym("quote"), sym("x")])
        ])
    );
}

#[test]
fn read_reader_macro_without_operand() {
    assert_eq!(read_str("'"), Err(ReadError::UnexpectedEndOfInput(1)));
    assert_eq!(read_str("(1 @"), Err(ReadError::UnexpectedEndOfInput(3)));
    assert_eq!(read_str("^{:a 1}"), Err(ReadError::UnexpectedEndOfInput(5)));
    assert_eq!(read_str("^"), Err(ReadError::UnexpectedEndOfInput(1)));
}

#[test]
fn read_stray_closing_bracket() {
    assert_eq!(
        read_str(")"),
        Err(ReadError::UnexpectedToken {
            got: Token::RParen,
            expected: None,
            pos: 1
        })
    );
    assert_eq!(
        read_str("(1 ]"),
        Err(ReadError::UnexpectedToken {
            got: Token::RBracket,
            expected: None,
            pos: 3
        })
    );
    assert_eq!(
        read_str("'}"),
        Err(ReadError::UnexpectedToken {
            got: Token::RBrace,
            expected: None,
            pos: 2
        })
    );
}

#[test]
fn read_tokenizer_error_is_wrapped() {
    assert_eq!(
        read_str("(1 \"abc"),
        Err(ReadError::Parse(ParseError::UnexpectedEndOfInput(7)))
    );
    assert_eq!(
        read_str("\"\\q\""),
        Err(ReadError::Parse(ParseError::UnknownEscapeSequence('q', 2)))
    );
    assert_eq!(
        read_str("a \\"),
        Err(ReadError::Parse(ParseError::UnexpectedCharacter {
            got: '\\',
            expected: None,
            pos: 2
        }))
    );
}

#[test]
fn read_only_the_first_form() {
    assert_eq!(read_str("1 2 3").unwrap(), num(1));
    assert_eq!(read_str("(a) )").unwrap(), Value::List(vec![sym("a")]));
}

#[test]
fn read_vector_and_list_differ() {
    assert_eq!(
        read_str("[1 (2)]").unwrap(),
        Value::Vector(vec![num(1), Value::List(vec![num(2)])])
    );
    assert_ne!(read_str("[1]").unwrap(), read_str("(1)").unwrap());
    assert_ne!(read_str("(1 2)").unwrap(), read_str("(1)").unwrap());
}

#[test]
fn read_numeral_out_of_range_is_a_symbol() {
    assert_eq!(read_str("2147483648").unwrap(), sym("2147483648"));
    assert_eq!(read_str("-2147483648").unwrap(), num(i32::MIN));
    assert_eq!(read_str("-").unwrap(), sym("-"));
}
