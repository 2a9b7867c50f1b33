use mal::types::{insert_entry, Atom, Value};

fn sym(name: &str) -> Value {
    Value::Atom(Atom::Symbol(name.to_owned()))
}

fn key(name: &str) -> Atom {
    Atom::Keyword(name.to_owned())
}

#[test]
fn kind_names() {
    assert_eq!(Value::Atom(Atom::Nil).kind_name(), "atom");
    assert_eq!(Value::List(vec![]).kind_name(), "list");
    assert_eq!(Value::Vector(vec![]).kind_name(), "vector");
    assert_eq!(Value::HashMap(vec![]).kind_name(), "hashmap");
}

#[test]
fn atoms_are_equal_by_kind_and_contents() {
    assert_eq!(Atom::Symbol("a".to_owned()), Atom::Symbol("a".to_owned()));
    assert_ne!(Atom::Symbol("a".to_owned()), Atom::Keyword("a".to_owned()));
    assert_ne!(Atom::Symbol("a".to_owned()), Atom::String("a".to_owned()));
    assert_ne!(Atom::String("a".to_owned()), Atom::String("b".to_owned()));
    assert_eq!(Atom::Int(3), Atom::Int(3));
    assert_ne!(Atom::Int(3), Atom::Int(4));
    assert_eq!(Atom::Nil, Atom::Nil);
    assert_ne!(Atom::Nil, Atom::False);
    assert_ne!(Atom::True, Atom::False);
}

#[test]
fn lists_are_equal_item_by_item() {
    assert_eq!(Value::List(vec![]), Value::List(vec![]));
    assert_eq!(
        Value::List(vec![sym("a"), Value::Vector(vec![sym("b")])]),
        Value::List(vec![sym("a"), Value::Vector(vec![sym("b")])])
    );
    assert_ne!(
        Value::List(vec![sym("a"), sym("b")]),
        Value::List(vec![sym("b"), sym("a")])
    );
    assert_ne!(Value::List(vec![sym("a")]), Value::List(vec![]));
    assert_ne!(Value::List(vec![]), Value::Vector(vec![]));
    assert_ne!(Value::List(vec![]), Value::HashMap(vec![]));
    assert_ne!(Value::List(vec![sym("a")]), sym("a"));
}

#[test]
fn hash_maps_are_equal_whatever_the_order() {
    let one = Value::HashMap(vec![
        (key("a"), sym("x")),
        (key("b"), Value::HashMap(vec![(Atom::Int(1), sym("p")), (Atom::Int(2), sym("q"))])),
        (Atom::Nil, Value::List(vec![])),
    ]);
    let other = Value::HashMap(vec![
        (Atom::Nil, Value::List(vec![])),
        (key("b"), Value::HashMap(vec![(Atom::Int(2), sym("q")), (Atom::Int(1), sym("p"))])),
        (key("a"), sym("x")),
    ]);
    assert_eq!(one, other);
    assert_eq!(other, one);
    let different = Value::HashMap(vec![
        (Atom::Nil, Value::List(vec![])),
        (key("b"), Value::HashMap(vec![(Atom::Int(2), sym("q")), (Atom::Int(1), sym("r"))])),
        (key("a"), sym("x")),
    ]);
    assert_ne!(one, different);
    assert_ne!(different, one);
}

#[test]
fn hash_maps_with_other_keys_differ() {
    let one = Value::HashMap(vec![(key("a"), sym("x")), (key("b"), sym("y"))]);
    let less = Value::HashMap(vec![(key("a"), sym("x"))]);
    let other = Value::HashMap(vec![(key("a"), sym("x")), (key("c"), sym("y"))]);
    assert_ne!(one, less);
    assert_ne!(less, one);
    assert_ne!(one, other);
    assert_ne!(one, Value::HashMap(vec![]));
    assert_eq!(Value::HashMap(vec![]), Value::HashMap(vec![]));
}

#[test]
fn insert_entry_appends_a_new_key() {
    let mut entries = vec![];
    insert_entry(&mut entries, key("a"), sym("x"));
    insert_entry(&mut entries, key("b"), sym("y"));
    insert_entry(&mut entries, Atom::Symbol("a".to_owned()), sym("z"));
    assert_eq!(
        entries,
        vec![
            (key("a"), sym("x")),
            (key("b"), sym("y")),
            (Atom::Symbol("a".to_owned()), sym("z")),
        ]
    );
}

#[test]
fn insert_entry_replaces_the_value_of_a_key() {
    let mut entries = vec![
        (key("a"), sym("x")),
        (key("b"), sym("y")),
        (key("c"), sym("z")),
    ];
    insert_entry(&mut entries, key("b"), Value::List(vec![]));
    assert_eq!(
        entries,
        vec![
            (key("a"), sym("x")),
            (key("b"), Value::List(vec![])),
            (key("c"), sym("z")),
        ]
    );
    insert_entry(&mut entries, key("a"), sym("w"));
    assert_eq!(entries[0], (key("a"), sym("w")));
    assert_eq!(entries.len(), 3);
}
