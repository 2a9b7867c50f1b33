use mal::parser::{tokenize, Token};
use mal::printer::{escape_string, pr_str};
use mal::reader::read_str;
use mal::types::{Atom, Value};

fn sym(name: &str) -> Value {
    Value::Atom(Atom::Symbol(name.to_owned()))
}

fn text(contents: &str) -> Value {
    Value::Atom(Atom::String(contents.to_owned()))
}

fn sample() -> Value {
    Value::List(vec![
        sym("+"),
        Value::Atom(Atom::Int(11)),
        Value::Atom(Atom::Int(-2147483648)),
        Value::Atom(Atom::Keyword("a11y".to_owned())),
        Value::Atom(Atom::Keyword("".to_owned())),
        Value::Vector(vec![
            sym("*"),
            Value::List(vec![]),
            Value::Vector(vec![Value::Atom(Atom::Nil)]),
            Value::Atom(Atom::True),
            Value::Atom(Atom::False),
        ]),
        text("hello"),
        text(""),
        text("a\"b\\c\nd"),
        text("(not a list) ; no comment"),
        sym("-"),
        sym("1+"),
        sym("\u{e9}t\u{e9}"),
    ])
}

#[test]
fn reading_what_was_printed_gives_the_value_back() {
    let printed = pr_str(sample(), false);
    assert_eq!(
        printed,
        "(+ 11 -2147483648 :a11y : [* () [nil] true false] \"hello\" \"\" \"a\\\"b\\\\c\\nd\" \"(not a list) ; no comment\" - 1+ \u{e9}t\u{e9})"
    );
    assert_eq!(read_str(&printed), Ok(sample()));
}

#[test]
fn reading_a_printed_atom_gives_the_atom_back() {
    for n in [0, 1, -1, 10, -10, 99, 100, i32::MAX, i32::MIN] {
        let printed = pr_str(Value::Atom(Atom::Int(n)), false);
        assert_eq!(read_str(&printed), Ok(Value::Atom(Atom::Int(n))));
    }
    for atom in [Atom::Nil, Atom::True, Atom::False] {
        let printed = pr_str(Value::Atom(atom), false);
        let again = pr_str(read_str(&printed).unwrap(), false);
        assert_eq!(again, printed);
    }
}

#[test]
fn symbols_that_are_not_read_back() {
    // The text of these symbols is read as another token, or as several.
    assert_eq!(read_str(&pr_str(sym("12"), false)), Ok(Value::Atom(Atom::Int(12))));
    assert_eq!(read_str(&pr_str(sym("nil"), false)), Ok(Value::Atom(Atom::Nil)));
    assert_eq!(read_str(&pr_str(sym("a b"), false)), Ok(sym("a")));
    assert!(read_str(&pr_str(sym(""), false)).is_err());
}

#[test]
fn decoding_an_escaped_string_gives_the_string_back() {
    let strings = [
        "",
        "plain",
        "\"",
        "\\",
        "\n",
        "\\n",
        "\\\"",
        "a\"b\\c\nd",
        "hello \" escaped \\ world\n",
        "tab\t and \u{e9} and \u{1F600}",
        "\\\\\\\"\"\"\n\n",
    ];
    for contents in strings {
        let quoted = format!("\"{}\"", escape_string(contents));
        assert_eq!(
            tokenize(&quoted),
            Ok(vec![Token::String(contents.to_owned())]),
            "{contents:?}"
        );
    }
}

#[test]
fn printing_a_hash_map_that_was_read_keeps_its_entries() {
    let value = read_str("{:b 2, :a (1 \"x\"), 7 nil}").unwrap();
    let printed = pr_str(value, false);
    assert_eq!(printed, "{:b 2 :a (1 \"x\") 7 nil}");
    assert_eq!(
        read_str(&printed),
        read_str("{7 nil :a (1 \"x\") :b 2}")
    );
}
