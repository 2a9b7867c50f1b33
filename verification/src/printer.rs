//! The printer: from a value to its text.

use crate::numeral::{decimal, push_decimal};
use crate::types::{entry_views, views, Atom, AtomView, Value, ValueView};
use vstd::prelude::*;
use vstd::string::StringExecFns;

verus! {

/// How one character of a string is written between quotes: a backslash
/// goes before a double quote and before a backslash, and a line feed
/// becomes a backslash and the letter `n`.
pub open spec fn escape_char(c: char) -> Seq<char> {
    if c == '"' {
        seq!['\\', '"']
    } else if c == '\\' {
        seq!['\\', '\\']
    } else if c == '\n' {
        seq!['\\', 'n']
    } else {
        seq![c]
    }
}

/// A string with each of its characters escaped.
pub open spec fn escape(s: Seq<char>) -> Seq<char>
    decreases s.len(),
{
    if s.len() == 0 {
        Seq::empty()
    } else {
        escape_char(s[0]) + escape(s.drop_first())
    }
}

/// The text of an atom. A string is written as it is when `pretty` is set,
/// and escaped between double quotes when it is not.
pub open spec fn print_atom(atom: AtomView, pretty: bool) -> Seq<char> {
    match atom {
        AtomView::Symbol(name) => name,
        AtomView::Keyword(name) => seq![':'] + name,
        AtomView::String(contents) => if pretty {
            contents
        } else {
            seq!['"'] + escape(contents) + seq!['"']
        },
        AtomView::Int(n) => decimal(n as int),
        AtomView::Nil => "nil"@,
        AtomView::True => "true"@,
        AtomView::False => "false"@,
    }
}

/// The text of a value. The items of a list stand between round brackets,
/// those of a vector between square brackets, the keys and values of a
/// hash-map between braces; `pretty` does not reach inside a container.
pub open spec fn print_value(v: ValueView, pretty: bool) -> Seq<char>
    decreases v, 0int,
{
    match v {
        ValueView::Atom(atom) => print_atom(atom, pretty),
        ValueView::List(items) => seq!['('] + join(items) + seq![')'],
        ValueView::Vector(items) => seq!['['] + join(items) + seq![']'],
        ValueView::HashMap(entries) => seq!['{'] + join_entries(entries) + seq!['}'],
    }
}

/// The texts of the items, with one space between each two.
pub open spec fn join(items: Seq<ValueView>) -> Seq<char>
    decreases items, 1int,
{
    if items.len() == 0 {
        Seq::empty()
    } else if items.len() == 1 {
        print_value(items[0], false)
    } else {
        join(items.drop_last()) + seq![' '] + print_value(items.last(), false)
    }
}

/// The texts of the keys and values of the entries, each key before its
/// value, with one space between each two.
pub open spec fn join_entries(entries: Seq<(AtomView, ValueView)>) -> Seq<char>
    decreases entries, 1int,
{
    if entries.len() == 0 {
        Seq::empty()
    } else {
        let last = entries.last();
        let pair = print_atom(last.0, false) + seq![' '] + print_value(last.1, false);
        if entries.len() == 1 {
            pair
        } else {
            join_entries(entries.drop_last()) + seq![' '] + pair
        }
    }
}

/// The keys and values of the entries in turn, as one sequence of values.
pub open spec fn interleaved(entries: Seq<(AtomView, ValueView)>) -> Seq<ValueView> {
    Seq::new(
        2 * entries.len(),
        |i: int|
            if i % 2 == 0 {
                ValueView::Atom(entries[i / 2].0)
            } else {
                entries[i / 2].1
            },
    )
}

/// The entries of a hash-map are written as the items of a list are: as the
/// keys and values in turn, with one space between each two.
pub proof fn lemma_join_entries(entries: Seq<(AtomView, ValueView)>)
    ensures
        join_entries(entries) == join(interleaved(entries)),
    decreases entries.len(),
{
    let all = interleaved(entries);
    if entries.len() == 0 {
        assert(all =~= Seq::<ValueView>::empty());
    } else {
        let init = entries.drop_last();
        let last = entries.last();
        let keys = all.drop_last();
        lemma_join_entries(init);
        assert(keys.drop_last() =~= interleaved(init));
        assert(keys.last() == ValueView::Atom(last.0));
        assert(all.last() == last.1);
        assert(all.len() == 2 * entries.len());
        assert(keys.len() == 2 * entries.len() - 1);
        assert(print_value(keys.last(), false) == print_atom(last.0, false));
        if entries.len() == 1 {
            assert(keys[0] == keys.last());
            assert(join(keys) == print_atom(last.0, false));
        } else {
            assert(join(keys) == join(keys.drop_last()) + seq![' '] + print_value(
                keys.last(),
                false,
            ));
            assert(join_entries(entries) =~= join(all));
        }
    }
}

/// Escaping goes character by character: the escape of two texts one after
/// the other is their escapes one after the other.
pub proof fn lemma_escape_concat(a: Seq<char>, b: Seq<char>)
    ensures
        escape(a + b) == escape(a) + escape(b),
    decreases a.len(),
{
    if a.len() == 0 {
        assert(a + b =~= b);
        assert(escape(a) + escape(b) =~= escape(b));
    } else {
        lemma_escape_concat(a.drop_first(), b);
        assert((a + b).drop_first() =~= a.drop_first() + b);
        assert(escape_char(a[0]) + (escape(a.drop_first()) + escape(b)) =~= (escape_char(a[0])
            + escape(a.drop_first())) + escape(b));
    }
}

/// The escape of a text with one character more.
pub proof fn lemma_escape_push(s: Seq<char>, c: char)
    ensures
        escape(s.push(c)) == escape(s) + escape_char(c),
{
    lemma_escape_concat(s, seq![c]);
    assert(s.push(c) =~= s + seq![c]);
    assert(seq![c].drop_first() =~= Seq::<char>::empty());
    assert(escape(Seq::<char>::empty()) =~= Seq::<char>::empty());
    assert(escape(seq![c]) =~= escape_char(c));
}

/// Escapes a string for writing between double quotes.
pub fn escape_string(string: &str) -> (result: String)
    ensures
        result@ == escape(string@),
{
    let mut result = String::new();
    for c in it: string.chars()
        invariant
            it.seq() == string@,
            result@ == escape(string@.take(it.index())),
    {
        proof {
            lemma_escape_push(string@.take(it.index()), c);
            assert(string@.take(it.index() + 1) =~= string@.take(it.index()).push(c));
        }
        if c == '"' {
            result.push('\\');
            result.push('"');
        } else if c == '\\' {
            result.push('\\');
            result.push('\\');
        } else if c == '\n' {
            result.push('\\');
            result.push('n');
        } else {
            result.push(c);
        }
        assert(result@ =~= escape(string@.take(it.index())) + escape_char(c));
    }
    assert(string@.take(string@.len() as int) =~= string@);
    result
}

/// The text of an atom.
pub fn pr_atom(atom: Atom, pretty: bool) -> (text: String)
    ensures
        text@ == print_atom(atom@, pretty),
{
    match atom {
        Atom::Symbol(sym) => sym,
        Atom::Keyword(keyword) => {
            let mut text = String::new();
            text.push(':');
            text.append(keyword.as_str());
            assert(text@ =~= seq![':'] + keyword@);
            text
        },
        Atom::String(string) => {
            if pretty {
                string
            } else {
                let mut text = String::new();
                text.push('"');
                text.append(escape_string(string.as_str()).as_str());
                text.push('"');
                assert(text@ =~= seq!['"'] + escape(string@) + seq!['"']);
                text
            }
        },
        Atom::Int(n) => {
            let mut text = String::new();
            push_decimal(&mut text, n);
            assert(text@ =~= decimal(n as int));
            text
        },
        Atom::Nil => String::from_str("nil"),
        Atom::True => String::from_str("true"),
        Atom::False => String::from_str("false"),
    }
}

/// The texts of the items, with one space between each two.
pub fn pr_list_items(items: Vec<Value>) -> (text: String)
    ensures
        text@ == join(views(items@)),
    decreases items, 1int,
{
    let ghost all = views(items@);
    let mut text = String::new();
    let mut first = true;
    for value in it: items.into_iter()
        invariant
            it.seq() == items@,
            all == views(items@),
            first == (it.index() == 0),
            text@ == join(all.take(it.index())),
    {
        let ghost i = it.index();
        proof {
            assert(all.take(i + 1).drop_last() =~= all.take(i));
            assert(all.take(i + 1).last() == value@);
            assert(decreases_to!(items => items[i]));
        }
        if !first {
            text.push(' ');
        }
        let item = pr_str(value, false);
        text.append(item.as_str());
        first = false;
        assert(text@ =~= join(all.take(i + 1)));
    }
    assert(all.take(all.len() as int) =~= all);
    text
}

/// Renders a value as text.
///
/// An atom is written as `print_atom` says; with `pretty` a string atom is
/// written raw, without quotes and escapes. The items of a container are
/// written without `pretty`, separated by single spaces, between the
/// brackets of the container. A hash-map is written as its keys and values
/// in turn, in the order of its entries.
pub fn pr_str(value: Value, pretty: bool) -> (text: String)
    ensures
        text@ == print_value(value@, pretty),
    decreases value, 0int,
{
    match value {
        Value::Atom(atom) => pr_atom(atom, pretty),
        Value::List(items) => {
            let mut text = String::new();
            text.push('(');
            text.append(pr_list_items(items).as_str());
            text.push(')');
            assert(text@ =~= seq!['('] + join(views(items@)) + seq![')']);
            text
        },
        Value::Vector(items) => {
            let mut text = String::new();
            text.push('[');
            text.append(pr_list_items(items).as_str());
            text.push(']');
            assert(text@ =~= seq!['['] + join(views(items@)) + seq![']']);
            text
        },
        Value::HashMap(map) => {
            let ghost all = entry_views(map@);
            let mut text = String::new();
            text.push('{');
            let mut first = true;
            for entry in it: map.into_iter()
                invariant
                    decreases_to!(value => map),
                    it.seq() == map@,
                    all == entry_views(map@),
                    first == (it.index() == 0),
                    text@ == seq!['{'] + join_entries(all.take(it.index())),
            {
                let ghost i = it.index();
                proof {
                    assert(all.take(i + 1).drop_last() =~= all.take(i));
                    assert(all.take(i + 1).last() == (entry.0@, entry.1@));
                    assert(decreases_to!(map => map[i]));
                    assert(decreases_to!(entry => entry.1));
                }
                let (k, v) = entry;
                if !first {
                    text.push(' ');
                }
                text.append(pr_atom(k, false).as_str());
                text.push(' ');
                text.append(pr_str(v, false).as_str());
                first = false;
                assert(text@ =~= seq!['{'] + join_entries(all.take(i + 1)));
            }
            text.push('}');
            assert(all.take(all.len() as int) =~= all);
            text
        },
    }
}

} // verus!
