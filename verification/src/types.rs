//! The data model: atoms and the tree of values built from them.

use vstd::prelude::*;
use vstd::std_specs::cmp::PartialEqSpecImpl;
use vstd::string::StringExecFns;

verus! {

/// An indivisible leaf value.
#[derive(Debug, Hash)]
pub enum Atom {
    /// A named data object.
    Symbol(String),
    /// A name written with a leading colon, commonly used as a hash-map key.
    Keyword(String),
    /// A string of characters, held without escapes.
    String(String),
    /// A 32-bit signed integer.
    Int(i32),
    /// The absence of a value.
    Nil,
    /// The truth value true.
    True,
    /// The truth value false.
    False,
}

/// An atom as a mathematical value: its texts are sequences of characters.
pub enum AtomView {
    Symbol(Seq<char>),
    Keyword(Seq<char>),
    String(Seq<char>),
    Int(i32),
    Nil,
    True,
    False,
}

impl View for Atom {
    type V = AtomView;

    open spec fn view(&self) -> AtomView {
        match self {
            Atom::Symbol(name) => AtomView::Symbol(name@),
            Atom::Keyword(name) => AtomView::Keyword(name@),
            Atom::String(contents) => AtomView::String(contents@),
            Atom::Int(n) => AtomView::Int(*n),
            Atom::Nil => AtomView::Nil,
            Atom::True => AtomView::True,
            Atom::False => AtomView::False,
        }
    }
}

impl PartialEq for Atom {
    fn eq(&self, other: &Atom) -> (r: bool) {
        match (self, other) {
            (Atom::Symbol(a), Atom::Symbol(b)) => *a == *b,
            (Atom::Keyword(a), Atom::Keyword(b)) => *a == *b,
            (Atom::String(a), Atom::String(b)) => *a == *b,
            (Atom::Int(a), Atom::Int(b)) => *a == *b,
            (Atom::Nil, Atom::Nil) => true,
            (Atom::True, Atom::True) => true,
            (Atom::False, Atom::False) => true,
            _ => false,
        }
    }
}

impl PartialEqSpecImpl for Atom {
    open spec fn obeys_eq_spec() -> bool {
        true
    }

    /// Two atoms are equal when they are the same kind of atom with the same
    /// text or number.
    open spec fn eq_spec(&self, other: &Atom) -> bool {
        self@ == other@
    }
}

impl Eq for Atom {

}

/// A node of the tree: an atom, or one of the three containers.
///
/// A hash-map is held as its entries in the order in which their keys were
/// first inserted. In a well-formed value no key occurs twice; equality
/// disregards the order of the entries.
#[derive(Debug)]
pub enum Value {
    /// A single atom.
    Atom(Atom),
    /// A list of values, written between round brackets.
    List(Vec<Value>),
    /// A vector of values, written between square brackets.
    Vector(Vec<Value>),
    /// A hash-map from atoms to values, written between braces.
    HashMap(Vec<(Atom, Value)>),
}

/// A value as a mathematical value.
pub enum ValueView {
    Atom(AtomView),
    List(Seq<ValueView>),
    Vector(Seq<ValueView>),
    HashMap(Seq<(AtomView, ValueView)>),
}

/// The views of a sequence of values.
pub open spec fn views(items: Seq<Value>) -> Seq<ValueView>
    decreases items,
{
    Seq::new(
        items.len(),
        |i: int|
            if 0 <= i < items.len() {
                items[i].view()
            } else {
                ValueView::Atom(AtomView::Nil)
            },
    )
}

/// The views of the entries of a hash-map.
pub open spec fn entry_views(entries: Seq<(Atom, Value)>) -> Seq<(AtomView, ValueView)>
    decreases entries,
{
    Seq::new(
        entries.len(),
        |i: int|
            if 0 <= i < entries.len() {
                (entries[i].0@, entries[i].1.view())
            } else {
                (AtomView::Nil, ValueView::Atom(AtomView::Nil))
            },
    )
}

impl View for Value {
    type V = ValueView;

    open spec fn view(&self) -> ValueView
        decreases self,
    {
        match self {
            Value::Atom(atom) => ValueView::Atom(atom@),
            Value::List(items) => ValueView::List(views(items@)),
            Value::Vector(items) => ValueView::Vector(views(items@)),
            Value::HashMap(entries) => ValueView::HashMap(entry_views(entries@)),
        }
    }
}

/// Whether two values are the same: atoms when they are equal, lists and
/// vectors when their items are the same one by one, and hash-maps when they
/// hold the same set of entries, in whatever order.
pub open spec fn same(a: ValueView, b: ValueView) -> bool
    decreases a, 0int,
{
    match (a, b) {
        (ValueView::Atom(x), ValueView::Atom(y)) => x == y,
        (ValueView::List(x), ValueView::List(y)) => same_items(x, y),
        (ValueView::Vector(x), ValueView::Vector(y)) => same_items(x, y),
        (ValueView::HashMap(x), ValueView::HashMap(y)) => within(x, y) && covers(x, y),
        _ => false,
    }
}

/// The two sequences are as long as each other, and their items are the same
/// one by one.
pub open spec fn same_items(x: Seq<ValueView>, y: Seq<ValueView>) -> bool
    decreases x, 0int,
{
    &&& x.len() == y.len()
    &&& forall|i: int| 0 <= i < x.len() ==> same(#[trigger] x[i], y[i])
}

/// Each entry of `x` has an entry of `y` with the same key and the same
/// value.
pub open spec fn within(x: Seq<(AtomView, ValueView)>, y: Seq<(AtomView, ValueView)>) -> bool
    decreases x, 0int,
{
    forall|i: int| 0 <= i < x.len() ==> has_same(#[trigger] x[i], y)
}

/// The entry `e` has an entry of `y` with the same key and the same value.
pub open spec fn has_same(e: (AtomView, ValueView), y: Seq<(AtomView, ValueView)>) -> bool
    decreases e, 0int,
{
    exists|j: int| 0 <= j < y.len() && e.0 == (#[trigger] y[j]).0 && same(e.1, y[j].1)
}

/// Each entry of `y` has an entry of `x` with the same key and the same
/// value.
pub open spec fn covers(x: Seq<(AtomView, ValueView)>, y: Seq<(AtomView, ValueView)>) -> bool
    decreases x, 2int,
{
    forall|j: int| 0 <= j < y.len() ==> holds_same(x, #[trigger] y[j])
}

/// The entry `e` has an entry of `x` with the same key and the same value.
pub open spec fn holds_same(x: Seq<(AtomView, ValueView)>, e: (AtomView, ValueView)) -> bool
    decreases x, 1int,
{
    exists|i: int| 0 <= i < x.len() && (#[trigger] x[i]).0 == e.0 && same(x[i].1, e.1)
}

/// Every value is the same as itself.
pub proof fn lemma_same_reflexive(a: ValueView)
    ensures
        same(a, a),
    decreases a,
{
    match a {
        ValueView::Atom(_) => {},
        ValueView::List(x) => {
            assert forall|i: int| 0 <= i < x.len() implies same(#[trigger] x[i], x[i]) by {
                lemma_same_reflexive(x[i]);
            }
        },
        ValueView::Vector(x) => {
            assert forall|i: int| 0 <= i < x.len() implies same(#[trigger] x[i], x[i]) by {
                lemma_same_reflexive(x[i]);
            }
        },
        ValueView::HashMap(x) => {
            assert forall|i: int| 0 <= i < x.len() implies has_same(#[trigger] x[i], x)
                && holds_same(x, x[i]) by {
                lemma_same_reflexive(x[i].1);
            }
        },
    }
}

/// Where one value is the same as another, the other is the same as the
/// one.
pub proof fn lemma_same_symmetric(a: ValueView, b: ValueView)
    requires
        same(a, b),
    ensures
        same(b, a),
    decreases a,
{
    match (a, b) {
        (ValueView::List(x), ValueView::List(y)) => {
            assert forall|i: int| 0 <= i < y.len() implies same(#[trigger] y[i], x[i]) by {
                assert(same(x[i], y[i]));
                lemma_same_symmetric(x[i], y[i]);
            }
        },
        (ValueView::Vector(x), ValueView::Vector(y)) => {
            assert forall|i: int| 0 <= i < y.len() implies same(#[trigger] y[i], x[i]) by {
                assert(same(x[i], y[i]));
                lemma_same_symmetric(x[i], y[i]);
            }
        },
        (ValueView::HashMap(x), ValueView::HashMap(y)) => {
            assert forall|j: int| 0 <= j < y.len() implies has_same(#[trigger] y[j], x) by {
                assert(holds_same(x, y[j]));
                let i = choose|i: int|
                    0 <= i < x.len() && (#[trigger] x[i]).0 == y[j].0 && same(x[i].1, y[j].1);
                lemma_same_symmetric(x[i].1, y[j].1);
            }
            assert forall|i: int| 0 <= i < x.len() implies holds_same(y, #[trigger] x[i]) by {
                assert(has_same(x[i], y));
                let j = choose|j: int|
                    0 <= j < y.len() && x[i].0 == (#[trigger] y[j]).0 && same(x[i].1, y[j].1);
                lemma_same_symmetric(x[i].1, y[j].1);
            }
        },
        _ => {},
    }
}

/// Two values that are the same as a third are the same as each other.
pub proof fn lemma_same_transitive(a: ValueView, b: ValueView, c: ValueView)
    requires
        same(a, b),
        same(b, c),
    ensures
        same(a, c),
    decreases a,
{
    match (a, b, c) {
        (ValueView::List(x), ValueView::List(y), ValueView::List(z)) => {
            assert forall|i: int| 0 <= i < x.len() implies same(#[trigger] x[i], z[i]) by {
                assert(same(x[i], y[i]));
                assert(same(y[i], z[i]));
                lemma_same_transitive(x[i], y[i], z[i]);
            }
        },
        (ValueView::Vector(x), ValueView::Vector(y), ValueView::Vector(z)) => {
            assert forall|i: int| 0 <= i < x.len() implies same(#[trigger] x[i], z[i]) by {
                assert(same(x[i], y[i]));
                assert(same(y[i], z[i]));
                lemma_same_transitive(x[i], y[i], z[i]);
            }
        },
        (ValueView::HashMap(x), ValueView::HashMap(y), ValueView::HashMap(z)) => {
            assert forall|i: int| 0 <= i < x.len() implies has_same(#[trigger] x[i], z) by {
                assert(has_same(x[i], y));
                let j = choose|j: int|
                    0 <= j < y.len() && x[i].0 == (#[trigger] y[j]).0 && same(x[i].1, y[j].1);
                assert(has_same(y[j], z));
                let k = choose|k: int|
                    0 <= k < z.len() && y[j].0 == (#[trigger] z[k]).0 && same(y[j].1, z[k].1);
                lemma_same_transitive(x[i].1, y[j].1, z[k].1);
            }
            assert forall|k: int| 0 <= k < z.len() implies holds_same(x, #[trigger] z[k]) by {
                assert(holds_same(y, z[k]));
                let j = choose|j: int|
                    0 <= j < y.len() && (#[trigger] y[j]).0 == z[k].0 && same(y[j].1, z[k].1);
                assert(holds_same(x, y[j]));
                let i = choose|i: int|
                    0 <= i < x.len() && (#[trigger] x[i]).0 == y[j].0 && same(x[i].1, y[j].1);
                lemma_same_transitive(x[i].1, y[j].1, z[k].1);
            }
        },
        _ => {},
    }
}

/// The order of the entries of a hash-map does not matter: two hash-maps
/// that hold the same entries, in whatever order, are the same.
pub proof fn lemma_same_entries(x: Seq<(AtomView, ValueView)>, y: Seq<(AtomView, ValueView)>)
    requires
        forall|i: int| 0 <= i < x.len() ==> y.contains(#[trigger] x[i]),
        forall|j: int| 0 <= j < y.len() ==> x.contains(#[trigger] y[j]),
    ensures
        same(ValueView::HashMap(x), ValueView::HashMap(y)),
{
    assert forall|i: int| 0 <= i < x.len() implies has_same(#[trigger] x[i], y) by {
        let j = choose|j: int| 0 <= j < y.len() && y[j] == x[i];
        lemma_same_reflexive(x[i].1);
        assert(x[i].0 == y[j].0 && same(x[i].1, y[j].1));
    }
    assert forall|j: int| 0 <= j < y.len() implies holds_same(x, #[trigger] y[j]) by {
        let i = choose|i: int| 0 <= i < x.len() && x[i] == y[j];
        lemma_same_reflexive(y[j].1);
        assert(x[i].0 == y[j].0 && same(x[i].1, y[j].1));
    }
}

/// The value holds no hash-map, at any depth.
pub open spec fn has_no_hash_map(v: ValueView) -> bool
    decreases v,
{
    match v {
        ValueView::Atom(_) => true,
        ValueView::List(items) => forall|i: int|
            0 <= i < items.len() ==> has_no_hash_map(#[trigger] items[i]),
        ValueView::Vector(items) => forall|i: int|
            0 <= i < items.len() ==> has_no_hash_map(#[trigger] items[i]),
        ValueView::HashMap(_) => false,
    }
}

/// A value without hash-maps is the same as another value only when the
/// two are equal.
pub proof fn lemma_same_without_hash_map(a: ValueView, b: ValueView)
    requires
        has_no_hash_map(a),
        same(a, b),
    ensures
        a == b,
    decreases a,
{
    match (a, b) {
        (ValueView::List(x), ValueView::List(y)) => {
            assert forall|i: int| 0 <= i < x.len() implies x[i] == y[i] by {
                assert(same(x[i], y[i]));
                lemma_same_without_hash_map(x[i], y[i]);
            }
            assert(x =~= y);
        },
        (ValueView::Vector(x), ValueView::Vector(y)) => {
            assert forall|i: int| 0 <= i < x.len() implies x[i] == y[i] by {
                assert(same(x[i], y[i]));
                lemma_same_without_hash_map(x[i], y[i]);
            }
            assert(x =~= y);
        },
        _ => {},
    }
}

/// Whether the items of `a` and of `b` are the same one by one.
fn items_same(a: &Vec<Value>, b: &Vec<Value>) -> (r: bool)
    ensures
        r == same_items(views(a@), views(b@)),
    decreases a,
{
    if a.len() != b.len() {
        return false;
    }
    let mut i: usize = 0;
    while i < a.len()
        invariant
            i <= a.len(),
            a.len() == b.len(),
            forall|k: int| 0 <= k < i ==> same(#[trigger] views(a@)[k], views(b@)[k]),
        decreases a.len() - i,
    {
        if !a[i].eq(&b[i]) {
            assert(!same(views(a@)[i as int], views(b@)[i as int]));
            return false;
        }
        i += 1;
    }
    true
}

/// Whether each entry of `a` has an entry of `b` with the same key and the
/// same value.
fn entries_within(a: &Vec<(Atom, Value)>, b: &Vec<(Atom, Value)>) -> (r: bool)
    ensures
        r == within(entry_views(a@), entry_views(b@)),
    decreases a,
{
    let ghost x = entry_views(a@);
    let ghost y = entry_views(b@);
    let mut i: usize = 0;
    while i < a.len()
        invariant
            i <= a.len(),
            x == entry_views(a@),
            y == entry_views(b@),
            forall|k: int| 0 <= k < i ==> has_same(#[trigger] x[k], y),
        decreases a.len() - i,
    {
        let mut found = false;
        let mut j: usize = 0;
        while j < b.len() && !found
            invariant
                i < a.len(),
                j <= b.len(),
                x == entry_views(a@),
                y == entry_views(b@),
                found ==> has_same(x[i as int], y),
                !found ==> forall|m: int|
                    0 <= m < j ==> !(x[i as int].0 == (#[trigger] y[m]).0 && same(
                        x[i as int].1,
                        y[m].1,
                    )),
            decreases b.len() - j + if found { 0int } else { 1 },
        {
            if a[i].0 == b[j].0 && a[i].1.eq(&b[j].1) {
                assert(x[i as int].0 == y[j as int].0 && same(x[i as int].1, y[j as int].1));
                found = true;
            } else {
                j += 1;
            }
        }
        if !found {
            assert(!has_same(x[i as int], y));
            return false;
        }
        i += 1;
    }
    true
}

/// Whether each entry of `b` has an entry of `a` with the same key and the
/// same value.
fn entries_cover(a: &Vec<(Atom, Value)>, b: &Vec<(Atom, Value)>) -> (r: bool)
    ensures
        r == covers(entry_views(a@), entry_views(b@)),
    decreases a,
{
    let ghost x = entry_views(a@);
    let ghost y = entry_views(b@);
    let mut j: usize = 0;
    while j < b.len()
        invariant
            j <= b.len(),
            x == entry_views(a@),
            y == entry_views(b@),
            forall|k: int| 0 <= k < j ==> holds_same(x, #[trigger] y[k]),
        decreases b.len() - j,
    {
        let mut found = false;
        let mut i: usize = 0;
        while i < a.len() && !found
            invariant
                j < b.len(),
                i <= a.len(),
                x == entry_views(a@),
                y == entry_views(b@),
                found ==> holds_same(x, y[j as int]),
                !found ==> forall|m: int|
                    0 <= m < i ==> !((#[trigger] x[m]).0 == y[j as int].0 && same(
                        x[m].1,
                        y[j as int].1,
                    )),
            decreases a.len() - i + if found { 0int } else { 1 },
        {
            if a[i].0 == b[j].0 && a[i].1.eq(&b[j].1) {
                assert(x[i as int].0 == y[j as int].0 && same(x[i as int].1, y[j as int].1));
                found = true;
            } else {
                i += 1;
            }
        }
        if !found {
            assert(!holds_same(x, y[j as int]));
            return false;
        }
        j += 1;
    }
    true
}

impl PartialEq for Value {
    fn eq(&self, other: &Value) -> (r: bool)
        decreases self,
    {
        match (self, other) {
            (Value::Atom(a), Value::Atom(b)) => a.eq(b),
            (Value::List(a), Value::List(b)) => items_same(a, b),
            (Value::Vector(a), Value::Vector(b)) => items_same(a, b),
            (Value::HashMap(a), Value::HashMap(b)) => entries_within(a, b) && entries_cover(a, b),
            _ => false,
        }
    }
}

impl PartialEqSpecImpl for Value {
    open spec fn obeys_eq_spec() -> bool {
        true
    }

    /// Two values are equal when they are the same: see `same`.
    open spec fn eq_spec(&self, other: &Value) -> bool {
        same(self@, other@)
    }
}

impl Eq for Value {

}

/// No key occurs twice among the entries.
pub open spec fn distinct_keys(entries: Seq<(AtomView, ValueView)>) -> bool {
    forall|i: int, j: int|
        0 <= i < j < entries.len() ==> (#[trigger] entries[i]).0 != (#[trigger] entries[j]).0
}

/// A value is well formed when no hash-map in it has a key twice.
pub open spec fn well_formed(v: ValueView) -> bool
    decreases v,
{
    match v {
        ValueView::Atom(_) => true,
        ValueView::List(items) => forall|i: int|
            0 <= i < items.len() ==> well_formed(#[trigger] items[i]),
        ValueView::Vector(items) => forall|i: int|
            0 <= i < items.len() ==> well_formed(#[trigger] items[i]),
        ValueView::HashMap(entries) => {
            &&& distinct_keys(entries)
            &&& forall|i: int| 0 <= i < entries.len() ==> well_formed((#[trigger] entries[i]).1)
        },
    }
}

/// The first index from `from` on at which the entries hold the key `k`, or
/// the number of entries if they hold it nowhere from there on.
pub open spec fn key_index(entries: Seq<(AtomView, ValueView)>, k: AtomView, from: int) -> int
    decreases entries.len() - from,
{
    if 0 <= from < entries.len() && entries[from].0 != k {
        key_index(entries, k, from + 1)
    } else {
        from
    }
}

/// The entries after `k` was given the value `v`: where the key is present
/// its value is replaced and its place kept; a new key goes to the end.
pub open spec fn put(entries: Seq<(AtomView, ValueView)>, k: AtomView, v: ValueView) -> Seq<
    (AtomView, ValueView),
> {
    let i = key_index(entries, k, 0);
    if i < entries.len() {
        entries.update(i, (k, v))
    } else {
        entries.push((k, v))
    }
}

/// Where `key_index` points there is the key, and before it there is not.
pub proof fn lemma_key_index(entries: Seq<(AtomView, ValueView)>, k: AtomView, from: int)
    requires
        0 <= from <= entries.len(),
    ensures
        from <= key_index(entries, k, from) <= entries.len(),
        forall|i: int| from <= i < key_index(entries, k, from) ==> (#[trigger] entries[i]).0 != k,
        key_index(entries, k, from) < entries.len() ==> entries[key_index(entries, k, from)].0
            == k,
    decreases entries.len() - from,
{
    if from < entries.len() && entries[from].0 != k {
        lemma_key_index(entries, k, from + 1);
    }
}

/// Giving a key a value keeps the keys distinct, and afterwards the key has
/// that value.
pub proof fn lemma_put(entries: Seq<(AtomView, ValueView)>, k: AtomView, v: ValueView)
    requires
        distinct_keys(entries),
    ensures
        distinct_keys(put(entries, k, v)),
        exists|i: int| 0 <= i < put(entries, k, v).len() && put(entries, k, v)[i] == (k, v),
{
    lemma_key_index(entries, k, 0);
    let i = key_index(entries, k, 0);
    let after = put(entries, k, v);
    if i < entries.len() {
        assert(after[i] == (k, v));
        assert forall|a: int, b: int| 0 <= a < b < after.len() implies (#[trigger] after[a]).0 != (
        #[trigger] after[b]).0 by {
            assert(after[a].0 == entries[a].0);
            assert(after[b].0 == entries[b].0);
        }
    } else {
        assert(after[entries.len() as int] == (k, v));
        assert forall|a: int, b: int| 0 <= a < b < after.len() implies (#[trigger] after[a]).0 != (
        #[trigger] after[b]).0 by {
            if b < entries.len() {
                assert(after[a] == entries[a]);
                assert(after[b] == entries[b]);
            } else {
                assert(after[a] == entries[a]);
            }
        }
    }
}

/// Gives the key the value among the entries of a hash-map: replaces the
/// value where the key is present, and appends the entry where it is not.
pub fn insert_entry(entries: &mut Vec<(Atom, Value)>, key: Atom, value: Value)
    ensures
        entry_views(final(entries)@) == put(entry_views(old(entries)@), key@, value@),
        distinct_keys(entry_views(old(entries)@)) ==> distinct_keys(entry_views(final(entries)@)),
{
    let ghost before = entry_views(entries@);
    proof {
        if distinct_keys(before) {
            lemma_put(before, key@, value@);
        }
    }
    let mut i: usize = 0;
    while i < entries.len() && !(entries[i].0 == key)
        invariant
            i <= entries.len(),
            entries@ == old(entries)@,
            before == entry_views(entries@),
            key_index(before, key@, 0) == key_index(before, key@, i as int),
        decreases entries.len() - i,
    {
        i += 1;
    }
    if i < entries.len() {
        entries.set(i, (key, value));
        assert(entry_views(entries@) =~= before.update(i as int, (key@, value@)));
    } else {
        entries.push((key, value));
        assert(entry_views(entries@) =~= before.push((key@, value@)));
    }
}

/// The name of the kind of a value.
pub open spec fn kind_name_of(v: ValueView) -> Seq<char> {
    match v {
        ValueView::Atom(_) => "atom"@,
        ValueView::List(_) => "list"@,
        ValueView::Vector(_) => "vector"@,
        ValueView::HashMap(_) => "hashmap"@,
    }
}

impl Value {
    /// The name of the kind of this value: `atom`, `list`, `vector` or
    /// `hashmap`.
    pub fn kind_name(&self) -> (name: String)
        ensures
            name@ == kind_name_of(self@),
    {
        match self {
            Value::Atom(_) => String::from_str("atom"),
            Value::List(_) => String::from_str("list"),
            Value::Vector(_) => String::from_str("vector"),
            Value::HashMap(_) => String::from_str("hashmap"),
        }
    }
}

} // verus!
