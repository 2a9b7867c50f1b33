use mal::printer::{escape_string, pr_atom, pr_list_items, pr_str};
use mal::types::{Atom, Value};

#[test]
fn test_pr_symbol() {
    let result = pr_str(Value::Atom(Atom::Symbol("test".to_owned())), false);
    assert_eq!(result, "test");
}

#[test]
fn test_pr_string() {
    let result = pr_str(Value::Atom(Atom::String("test".to_owned())), false);
    assert_eq!(result, "\"test\"");
}

#[test]
fn test_pr_escaped_string() {
    let result = pr_str(
        Value::Atom(Atom::String("hello \\ escaped \" world\n".to_owned())),
        false,
    );
    assert_eq!(result, "\"hello \\\\ escaped \\\" world\\n\"");
}

#[test]
fn test_pr_string_pretty() {
    let result = pr_str(Value::Atom(Atom::String("test".to_owned())), true);
    assert_eq!(result, "test");
}

#[test]
fn test_pr_escaped_string_pretty() {
    let result = pr_str(
        Value::Atom(Atom::String("hello \\ escaped \" world\n".to_owned())),
        true,
    );
    assert_eq!(result, "hello \\ escaped \" world\n");
}

#[test]
fn test_pr_int() {
    let result = pr_str(Value::Atom(Atom::Int(42)), false);
    assert_eq!(result, "42");
}

#[test]
fn test_pr_list() {
    let result = pr_str(
        Value::List(vec![
            Value::Atom(Atom::Int(42)),
            Value::Atom(Atom::Symbol("test".to_owned())),
        ]),
        false,
    );
    assert_eq!(result, "(42 test)");
}

#[test]
fn test_pr_vector() {
    let result = pr_str(
        Value::Vector(vec![
            Value::Atom(Atom::Int(42)),
            Value::Atom(Atom::Symbol("test".to_owned())),
        ]),
        false,
    );
    assert_eq!(result, "[42 test]");
}

#[test]
fn test_pr_hash_map() {
    let result = pr_str(
        Value::HashMap(vec![(
            Atom::Int(42),
            Value::Atom(Atom::Symbol("test".to_owned())),
        )]),
        false,
    );
    assert_eq!(result, "{42 test}");
}

#[test]
fn test_pr_nil() {
    let result = pr_str(Value::Atom(Atom::Nil), false);
    assert_eq!(result, "nil");
}

#[test]
fn test_pr_true() {
    let result = pr_str(Value::Atom(Atom::True), false);
    assert_eq!(result, "true");
}

#[test]
fn test_pr_false() {
    let result = pr_str(Value::Atom(Atom::False), false);
    assert_eq!(result, "false");
}

#[test]
fn pr_string_with_every_escape() {
    let value = Value::Atom(Atom::String("a\"b\\c\nd".to_owned()));
    assert_eq!(pr_str(value, false), "\"a\\\"b\\\\c\\nd\"");
    let value = Value::Atom(Atom::String("a\"b\\c\nd".to_owned()));
    assert_eq!(pr_str(value, true), "a\"b\\c\nd");
}

#[test]
fn pr_keyword() {
    assert_eq!(
        pr_str(Value::Atom(Atom::Keyword("a11y".to_owned())), false),
        ":a11y"
    );
    assert_eq!(pr_atom(Atom::Keyword("".to_owned()), true), ":");
}

#[test]
fn pr_integers() {
    assert_eq!(pr_str(Value::Atom(Atom::Int(0)), false), "0");
    assert_eq!(pr_str(Value::Atom(Atom::Int(-7)), false), "-7");
    assert_eq!(pr_str(Value::Atom(Atom::Int(1000)), true), "1000");
    assert_eq!(
        pr_str(Value::Atom(Atom::Int(i32::MAX)), false),
        "2147483647"
    );
    assert_eq!(
        pr_str(Value::Atom(Atom::Int(i32::MIN)), false),
        "-2147483648"
    );
}

#[test]
fn pr_empty_containers() {
    assert_eq!(pr_str(Value::List(vec![]), false), "()");
    assert_eq!(pr_str(Value::Vector(vec![]), false), "[]");
    assert_eq!(pr_str(Value::HashMap(vec![]), false), "{}");
}

#[test]
fn pr_nested_strings_are_never_pretty() {
    let value = Value::List(vec![
        Value::Atom(Atom::String("a\nb".to_owned())),
        Value::Vector(vec![Value::Atom(Atom::String("\"".to_owned()))]),
    ]);
    assert_eq!(pr_str(value, true), "(\"a\\nb\" [\"\\\"\"])");
}

#[test]
fn pr_hash_map_in_the_order_of_its_entries() {
    let value = Value::HashMap(vec![
        (Atom::Keyword("b".to_owned()), Value::Atom(Atom::Int(2))),
        (
            Atom::String("a".to_owned()),
            Value::List(vec![Value::Atom(Atom::Nil)]),
        ),
        (Atom::Int(3), Value::HashMap(vec![])),
    ]);
    assert_eq!(pr_str(value, false), "{:b 2 \"a\" (nil) 3 {}}");
}

#[test]
fn pr_list_items_joins_with_spaces() {
    assert_eq!(pr_list_items(vec![]), "");
    assert_eq!(pr_list_items(vec![Value::Atom(Atom::True)]), "true");
    assert_eq!(
        pr_list_items(vec![
            Value::Atom(Atom::True),
            Value::List(vec![]),
            Value::Atom(Atom::Int(-1)),
        ]),
        "true () -1"
    );
}

#[test]
fn escape_string_escapes_each_character() {
    assert_eq!(escape_string(""), "");
    assert_eq!(escape_string("plain"), "plain");
    assert_eq!(escape_string("\"\"\\\n\n"), "\\\"\\\"\\\\\\n\\n");
    assert_eq!(escape_string("tab\there"), "tab\there");
}
