//! Laws that connect the printer with the tokenizer and the reader.

use crate::chars::{
    alphanumeric_class, blank_class, comment_class, is_alphanumeric, is_blank, is_digit,
    is_symbol_char, symbol_class,
};
use crate::numeral::{decimal, digits_of, lemma_digits_of, lemma_parse_i32};
use crate::parser::{
    classify, is_escape, lemma_next_token_advances, lemma_run_end, next_token, tokens_from,
    tokens_of, unescape, unescaped, with_prefix, with_tokens, ParseError, TokenView,
};
use crate::printer::{escape, escape_char, join, print_atom, print_value};
use crate::reader::{read_form, read_items, read_text, with_first, with_items, ReadErrorView};
use crate::types::{AtomView, ValueView};
use vstd::prelude::*;

verus! {

/// The sequence `part` stands in `s` at `pos`.
pub open spec fn occurs_at<A>(s: Seq<A>, pos: int, part: Seq<A>) -> bool {
    &&& 0 <= pos
    &&& pos + part.len() <= s.len()
    &&& s.subrange(pos, pos + part.len()) == part
}

/// Where two sequences stand one after the other, each of them stands.
pub proof fn lemma_occurs_split<A>(s: Seq<A>, pos: int, a: Seq<A>, b: Seq<A>)
    requires
        occurs_at(s, pos, a + b),
    ensures
        occurs_at(s, pos, a),
        occurs_at(s, pos + a.len(), b),
{
    let whole = s.subrange(pos, pos + (a + b).len());
    assert(s.subrange(pos, pos + a.len()) =~= whole.subrange(0, a.len() as int));
    assert(whole.subrange(0, a.len() as int) =~= a);
    assert(s.subrange(pos + a.len(), pos + a.len() + b.len()) =~= whole.subrange(
        a.len() as int,
        (a + b).len() as int,
    ));
    assert(whole.subrange(a.len() as int, (a + b).len() as int) =~= b);
}

/// What stands in `s` at `pos` has its characters there.
pub proof fn lemma_occurs_index<A>(s: Seq<A>, pos: int, part: Seq<A>, i: int)
    requires
        occurs_at(s, pos, part),
        0 <= i < part.len(),
    ensures
        s[pos + i] == part[i],
{
    assert(s.subrange(pos, pos + part.len())[i] == s[pos + i]);
}

/// Decoding undoes escaping: where the escaped form of `contents` stands in
/// a text at `pos`, just before a double quote, decoding from `pos` gives
/// `contents` and ends after that quote.
pub proof fn lemma_unescape_escaped(text: Seq<char>, pos: int, contents: Seq<char>)
    requires
        occurs_at(text, pos, escape(contents) + seq!['"']),
    ensures
        unescape(text, pos) == Ok::<(Seq<char>, int), ParseError>(
            (contents, pos + escape(contents).len() + 1),
        ),
    decreases contents.len(),
{
    let escaped = escape(contents);
    lemma_occurs_split(text, pos, escaped, seq!['"']);
    if contents.len() == 0 {
        lemma_occurs_index(text, pos, seq!['"'], 0);
        assert(contents =~= Seq::<char>::empty());
    } else {
        let c = contents[0];
        let rest = contents.drop_first();
        let head = escape_char(c);
        assert(escaped + seq!['"'] =~= head + (escape(rest) + seq!['"']));
        lemma_occurs_split(text, pos, head, escape(rest) + seq!['"']);
        lemma_unescape_escaped(text, pos + head.len(), rest);
        lemma_occurs_index(text, pos, head, 0);
        let end = pos + head.len() + escape(rest).len() + 1;
        assert(escaped.len() == head.len() + escape(rest).len());
        if c == '"' || c == '\\' || c == '\n' {
            lemma_occurs_index(text, pos, head, 1);
            assert(text[pos] == '\\');
            assert(is_escape(text[pos + 1]));
            assert(unescaped(text[pos + 1]) == c);
            assert(unescape(text, pos) == with_prefix(seq![c], unescape(text, pos + 2)));
        } else {
            assert(text[pos] == c);
            assert(unescape(text, pos) == with_prefix(seq![c], unescape(text, pos + 1)));
        }
        assert(seq![c] + rest =~= contents);
    }
}

/// Decoding the escaped form of a string, closed by a double quote, gives
/// the string back.
pub proof fn lemma_unescape_escape(contents: Seq<char>)
    ensures
        unescape(escape(contents) + seq!['"'], 0) == Ok::<(Seq<char>, int), ParseError>(
            (contents, escape(contents).len() as int + 1),
        ),
{
    let text = escape(contents) + seq!['"'];
    assert(text.subrange(0, text.len() as int) =~= text);
    lemma_unescape_escaped(text, 0, contents);
}

/// A text of blanks alone has no tokens, and reading it gives `NoInput`.
pub proof fn lemma_blank_text(s: Seq<char>)
    requires
        forall|i: int| 0 <= i < s.len() ==> is_blank(#[trigger] s[i]),
    ensures
        tokens_of(s) == Ok::<Seq<TokenView>, ParseError>(Seq::empty()),
        read_text(s) == Err::<ValueView, ReadErrorView>(ReadErrorView::NoInput),
{
    lemma_run_end(s, 0, s.len() as int, blank_class());
}

/// A text that holds a comment alone has no tokens, and reading it gives
/// `NoInput`: the text is `n` blanks, a `;`, and then anything but a line
/// feed.
pub proof fn lemma_comment_text(s: Seq<char>, n: int)
    requires
        0 <= n < s.len(),
        forall|i: int| 0 <= i < n ==> is_blank(#[trigger] s[i]),
        s[n] == ';',
        forall|i: int| n < i < s.len() ==> (#[trigger] s[i]) != '\n',
    ensures
        tokens_of(s) == Ok::<Seq<TokenView>, ParseError>(Seq::empty()),
        read_text(s) == Err::<ValueView, ReadErrorView>(ReadErrorView::NoInput),
{
    let end = s.len() as int;
    lemma_run_end(s, 0, n, blank_class());
    assert forall|i: int| n <= i < end implies comment_class()(#[trigger] s[i]) by {}
    lemma_run_end(s, n, end, comment_class());
    lemma_run_end(s, end, end, blank_class());
    assert(tokens_from(s, end) == Ok::<Seq<TokenView>, ParseError>(Seq::empty()));
}

/// A comment gives no token: the tokens of a text that starts with `n`
/// blanks and a `;` are the tokens from the end of that line on.
pub proof fn lemma_comment_is_skipped(s: Seq<char>, n: int, end: int)
    requires
        0 <= n < end <= s.len(),
        forall|i: int| 0 <= i < n ==> is_blank(#[trigger] s[i]),
        s[n] == ';',
        forall|i: int| n < i < end ==> (#[trigger] s[i]) != '\n',
        end == s.len() || s[end] == '\n',
    ensures
        tokens_of(s) == tokens_from(s, end),
{
    lemma_run_end(s, 0, n, blank_class());
    assert forall|i: int| n <= i < end implies comment_class()(#[trigger] s[i]) by {}
    lemma_run_end(s, n, end, comment_class());
}

/// The empty text has no tokens, and reading it gives `NoInput`.
pub proof fn lemma_empty_text()
    ensures
        tokens_of(Seq::empty()) == Ok::<Seq<TokenView>, ParseError>(Seq::empty()),
        read_text(Seq::empty()) == Err::<ValueView, ReadErrorView>(ReadErrorView::NoInput),
{
    lemma_blank_text(Seq::empty());
}

/// The token that the text of an atom is read as.
pub open spec fn atom_token(atom: AtomView) -> TokenView {
    match atom {
        AtomView::Symbol(name) => TokenView::Symbol(name),
        AtomView::Keyword(name) => TokenView::Keyword(name),
        AtomView::String(contents) => TokenView::String(contents),
        AtomView::Int(n) => TokenView::Int(n),
        AtomView::Nil => TokenView::Nil,
        AtomView::True => TokenView::True,
        AtomView::False => TokenView::False,
    }
}

/// The tokens that the text of a value without hash-maps is read as.
pub open spec fn value_tokens(v: ValueView) -> Seq<TokenView>
    decreases v, 0int,
{
    match v {
        ValueView::Atom(atom) => seq![atom_token(atom)],
        ValueView::List(items) => seq![TokenView::LParen] + items_tokens(items) + seq![
            TokenView::RParen,
        ],
        ValueView::Vector(items) => seq![TokenView::LBracket] + items_tokens(items) + seq![
            TokenView::RBracket,
        ],
        ValueView::HashMap(_) => Seq::empty(),
    }
}

/// The tokens of the items, one item after the other.
pub open spec fn items_tokens(items: Seq<ValueView>) -> Seq<TokenView>
    decreases items, 1int,
{
    if items.len() == 0 {
        Seq::empty()
    } else {
        items_tokens(items.drop_last()) + value_tokens(items.last())
    }
}

/// A text that the tokenizer takes for a symbol: one character or more, all
/// of them symbol characters, the first of them no blank, and the whole
/// neither the name of an atom nor a numeral.
pub open spec fn is_symbol_text(name: Seq<char>) -> bool {
    &&& name.len() > 0
    &&& forall|i: int| 0 <= i < name.len() ==> is_symbol_char(#[trigger] name[i])
    &&& !is_blank(name[0])
    &&& classify(name) == TokenView::Symbol(name)
}

/// An atom whose text is read back as the atom: any string, integer or
/// named atom, a symbol whose name the tokenizer takes for a symbol, and a
/// keyword of letters and digits.
pub open spec fn readable_atom(atom: AtomView) -> bool {
    match atom {
        AtomView::Symbol(name) => is_symbol_text(name),
        AtomView::Keyword(name) => forall|i: int|
            0 <= i < name.len() ==> is_alphanumeric(#[trigger] name[i]),
        _ => true,
    }
}

/// A value whose text is read back as the value: it is made of lists,
/// vectors and readable atoms, and holds no hash-map.
pub open spec fn readable(v: ValueView) -> bool
    decreases v,
{
    match v {
        ValueView::Atom(atom) => readable_atom(atom),
        ValueView::List(items) => forall|i: int|
            0 <= i < items.len() ==> readable(#[trigger] items[i]),
        ValueView::Vector(items) => forall|i: int|
            0 <= i < items.len() ==> readable(#[trigger] items[i]),
        ValueView::HashMap(_) => false,
    }
}

/// The text ends at `pos`, or a space or a closing bracket stands there.
pub open spec fn at_boundary(s: Seq<char>, pos: int) -> bool {
    pos == s.len() || s[pos] == ' ' || s[pos] == ')' || s[pos] == ']'
}

/// A run of symbol characters that starts with no blank and ends at a
/// boundary is one token: what `classify` makes of it.
pub proof fn lemma_bare_token(s: Seq<char>, pos: int, word: Seq<char>)
    requires
        word.len() > 0,
        forall|i: int| 0 <= i < word.len() ==> is_symbol_char(#[trigger] word[i]),
        !is_blank(word[0]),
        occurs_at(s, pos, word),
        at_boundary(s, pos + word.len()),
    ensures
        next_token(s, pos) == Ok::<Option<(TokenView, int)>, ParseError>(
            Some((classify(word), pos + word.len())),
        ),
{
    let end = pos + word.len();
    lemma_occurs_index(s, pos, word, 0);
    lemma_run_end(s, pos, pos, blank_class());
    assert forall|i: int| pos <= i < end implies symbol_class()(#[trigger] s[i]) by {
        lemma_occurs_index(s, pos, word, i - pos);
    }
    lemma_run_end(s, pos, end, symbol_class());
}

/// A decimal numeral is a run of symbol characters that starts with no
/// blank, and it is neither empty nor the name of an atom.
pub proof fn lemma_decimal_is_bare(n: int)
    ensures
        decimal(n).len() > 0,
        forall|i: int| 0 <= i < decimal(n).len() ==> is_symbol_char(#[trigger] decimal(n)[i]),
        !is_blank(decimal(n)[0]),
        decimal(n)[0] == '-' || is_digit(decimal(n)[0]),
{
    if n < 0 {
        let digits = digits_of((-n) as nat);
        lemma_digits_of((-n) as nat);
        assert forall|i: int| 0 <= i < decimal(n).len() implies is_symbol_char(
            #[trigger] decimal(n)[i],
        ) by {
            if i > 0 {
                assert(decimal(n)[i] == digits[i - 1]);
            }
        }
    } else {
        lemma_digits_of(n as nat);
    }
}

/// The text of a readable atom at a boundary is one token, that of the atom.
pub proof fn lemma_atom_token(s: Seq<char>, pos: int, atom: AtomView)
    requires
        readable_atom(atom),
        occurs_at(s, pos, print_atom(atom, false)),
        at_boundary(s, pos + print_atom(atom, false).len()),
    ensures
        next_token(s, pos) == Ok::<Option<(TokenView, int)>, ParseError>(
            Some((atom_token(atom), pos + print_atom(atom, false).len())),
        ),
{
    let text = print_atom(atom, false);
    let end = pos + text.len();
    reveal_strlit("nil");
    reveal_strlit("true");
    reveal_strlit("false");
    match atom {
        AtomView::Symbol(name) => {
            lemma_bare_token(s, pos, name);
        },
        AtomView::Keyword(name) => {
            lemma_occurs_split(s, pos, seq![':'], name);
            lemma_occurs_index(s, pos, seq![':'], 0);
            lemma_run_end(s, pos, pos, blank_class());
            assert forall|i: int| pos + 1 <= i < end implies alphanumeric_class()(
                #[trigger] s[i],
            ) by {
                lemma_occurs_index(s, pos + 1, name, i - pos - 1);
            }
            lemma_run_end(s, pos + 1, end, alphanumeric_class());
        },
        AtomView::String(contents) => {
            assert(text =~= seq!['"'] + (escape(contents) + seq!['"']));
            lemma_occurs_split(s, pos, seq!['"'], escape(contents) + seq!['"']);
            lemma_occurs_index(s, pos, seq!['"'], 0);
            lemma_run_end(s, pos, pos, blank_class());
            lemma_unescape_escaped(s, pos + 1, contents);
        },
        AtomView::Int(n) => {
            lemma_decimal_is_bare(n as int);
            lemma_parse_i32(n);
            lemma_bare_token(s, pos, text);
        },
        AtomView::Nil => {
            lemma_bare_token(s, pos, text);
        },
        AtomView::True => {
            lemma_bare_token(s, pos, text);
        },
        AtomView::False => {
            lemma_bare_token(s, pos, text);
        },
    }
}

/// Putting tokens before a result in two steps is putting them before it in
/// one.
pub proof fn lemma_with_tokens(
    a: Seq<TokenView>,
    b: Seq<TokenView>,
    r: Result<Seq<TokenView>, ParseError>,
)
    ensures
        with_tokens(a, with_tokens(b, r)) == with_tokens(a + b, r),
        with_tokens(Seq::empty(), r) == r,
{
    if let Ok(rest) = r {
        assert(a + (b + rest) =~= (a + b) + rest);
        assert(Seq::<TokenView>::empty() + rest =~= rest);
    }
}

/// A blank before the tokens changes nothing.
pub proof fn lemma_tokens_after_blank(s: Seq<char>, pos: int)
    requires
        0 <= pos < s.len(),
        is_blank(s[pos]),
    ensures
        tokens_from(s, pos) == tokens_from(s, pos + 1),
{
    assert(blank_class()(s[pos]));
    assert(next_token(s, pos) == next_token(s, pos + 1));
    lemma_next_token_advances(s, pos + 1);
}

/// A character that is a token by itself gives that token.
pub proof fn lemma_bracket_token(s: Seq<char>, pos: int, c: char, token: TokenView)
    requires
        0 <= pos < s.len(),
        s[pos] == c,
        (c == '(' && token == TokenView::LParen) || (c == ')' && token == TokenView::RParen) || (c
            == '[' && token == TokenView::LBracket) || (c == ']' && token == TokenView::RBracket),
    ensures
        tokens_from(s, pos) == with_tokens(seq![token], tokens_from(s, pos + 1)),
{
    lemma_run_end(s, pos, pos, blank_class());
}

/// The text of a readable value at a boundary gives the tokens of the value,
/// and then whatever the rest of the text gives.
pub proof fn lemma_tokens_of_value(s: Seq<char>, pos: int, v: ValueView)
    requires
        readable(v),
        occurs_at(s, pos, print_value(v, false)),
        at_boundary(s, pos + print_value(v, false).len()),
    ensures
        tokens_from(s, pos) == with_tokens(
            value_tokens(v),
            tokens_from(s, pos + print_value(v, false).len()),
        ),
    decreases v, 0int,
{
    let text = print_value(v, false);
    let end = pos + text.len();
    match v {
        ValueView::Atom(atom) => {
            lemma_atom_token(s, pos, atom);
            lemma_next_token_advances(s, pos);
        },
        ValueView::List(items) => {
            lemma_tokens_of_brackets(s, pos, items, '(', ')', TokenView::LParen, TokenView::RParen);
        },
        ValueView::Vector(items) => {
            lemma_tokens_of_brackets(
                s,
                pos,
                items,
                '[',
                ']',
                TokenView::LBracket,
                TokenView::RBracket,
            );
        },
        ValueView::HashMap(_) => {},
    }
}

/// The texts of readable items between two brackets give the opening token,
/// the tokens of the items and the closing token.
pub proof fn lemma_tokens_of_brackets(
    s: Seq<char>,
    pos: int,
    items: Seq<ValueView>,
    open: char,
    close: char,
    opener: TokenView,
    closer: TokenView,
)
    requires
        forall|i: int| 0 <= i < items.len() ==> readable(#[trigger] items[i]),
        occurs_at(s, pos, seq![open] + join(items) + seq![close]),
        (open == '(' && close == ')' && opener == TokenView::LParen && closer == TokenView::RParen)
            || (open == '[' && close == ']' && opener == TokenView::LBracket && closer
            == TokenView::RBracket),
    ensures
        tokens_from(s, pos) == with_tokens(
            seq![opener] + items_tokens(items) + seq![closer],
            tokens_from(s, pos + join(items).len() + 2),
        ),
    decreases items, 2int,
{
    let inner = join(items);
    let last = pos + 1 + inner.len();
    assert(seq![open] + inner + seq![close] =~= seq![open] + (inner + seq![close]));
    lemma_occurs_split(s, pos, seq![open], inner + seq![close]);
    lemma_occurs_split(s, pos + 1, inner, seq![close]);
    lemma_occurs_index(s, pos, seq![open], 0);
    lemma_occurs_index(s, last, seq![close], 0);
    lemma_bracket_token(s, pos, open, opener);
    lemma_tokens_of_items(s, pos + 1, items);
    lemma_bracket_token(s, last, close, closer);
    let rest = tokens_from(s, last + 1);
    lemma_with_tokens(items_tokens(items), seq![closer], rest);
    lemma_with_tokens(seq![opener], items_tokens(items) + seq![closer], rest);
    assert(seq![opener] + (items_tokens(items) + seq![closer]) =~= seq![opener] + items_tokens(
        items,
    ) + seq![closer]);
}

/// The texts of readable items, joined by spaces and ending at a boundary,
/// give the tokens of the items, and then whatever the rest of the text
/// gives.
pub proof fn lemma_tokens_of_items(s: Seq<char>, pos: int, items: Seq<ValueView>)
    requires
        forall|i: int| 0 <= i < items.len() ==> readable(#[trigger] items[i]),
        occurs_at(s, pos, join(items)),
        at_boundary(s, pos + join(items).len()),
    ensures
        tokens_from(s, pos) == with_tokens(
            items_tokens(items),
            tokens_from(s, pos + join(items).len()),
        ),
    decreases items, 1int,
{
    let rest = tokens_from(s, pos + join(items).len());
    if items.len() == 0 {
        lemma_with_tokens(Seq::empty(), Seq::empty(), rest);
    } else if items.len() == 1 {
        assert(items.drop_last() =~= Seq::<ValueView>::empty());
        assert(items_tokens(items.drop_last()) =~= Seq::<TokenView>::empty());
        assert(items_tokens(items) =~= value_tokens(items[0]));
        lemma_tokens_of_value(s, pos, items[0]);
    } else {
        let init = items.drop_last();
        let before = join(init);
        let after = print_value(items.last(), false);
        let gap = pos + before.len();
        assert(join(items) =~= before + (seq![' '] + after));
        lemma_occurs_split(s, pos, before, seq![' '] + after);
        lemma_occurs_split(s, gap, seq![' '], after);
        lemma_occurs_index(s, gap, seq![' '], 0);
        assert forall|i: int| 0 <= i < init.len() implies readable(#[trigger] init[i]) by {
            assert(init[i] == items[i]);
        }
        lemma_tokens_of_items(s, pos, init);
        lemma_tokens_after_blank(s, gap);
        lemma_tokens_of_value(s, gap + 1, items.last());
        lemma_with_tokens(items_tokens(init), value_tokens(items.last()), rest);
    }
}

/// A readable value has tokens, and the first of them closes no bracket.
pub proof fn lemma_first_token(v: ValueView)
    requires
        readable(v),
    ensures
        value_tokens(v).len() > 0,
        value_tokens(v)[0] != TokenView::RParen,
        value_tokens(v)[0] != TokenView::RBracket,
        value_tokens(v)[0] != TokenView::RBrace,
{
}

/// Putting items before a result in two steps is putting them before it in
/// one.
pub proof fn lemma_with_items(
    a: Seq<ValueView>,
    first: ValueView,
    r: Result<(Seq<ValueView>, int), ReadErrorView>,
)
    ensures
        with_items(a, with_first(first, r)) == with_items(a.push(first), r),
        with_items(Seq::empty(), r) == r,
{
    if let Ok((rest, end)) = r {
        assert(a + (seq![first] + rest) =~= a.push(first) + rest);
        assert(Seq::<ValueView>::empty() + rest =~= rest);
    }
}

/// Where the tokens of a readable value stand, reading a form gives the
/// value and ends after them.
pub proof fn lemma_read_value_tokens(ts: Seq<TokenView>, pos: int, v: ValueView)
    requires
        readable(v),
        occurs_at(ts, pos, value_tokens(v)),
    ensures
        read_form(ts, pos) == Ok::<(ValueView, int), ReadErrorView>(
            (v, pos + value_tokens(v).len()),
        ),
    decreases v, 0int,
{
    lemma_first_token(v);
    lemma_occurs_index(ts, pos, value_tokens(v), 0);
    match v {
        ValueView::Atom(atom) => {},
        ValueView::List(items) => {
            lemma_read_bracket_tokens(ts, pos, items, TokenView::LParen, TokenView::RParen);
        },
        ValueView::Vector(items) => {
            lemma_read_bracket_tokens(ts, pos, items, TokenView::LBracket, TokenView::RBracket);
        },
        ValueView::HashMap(_) => {},
    }
}

/// Where the tokens of readable items stand between two brackets, reading
/// the items after the opening bracket gives them and ends after the closing
/// bracket.
pub proof fn lemma_read_bracket_tokens(
    ts: Seq<TokenView>,
    pos: int,
    items: Seq<ValueView>,
    opener: TokenView,
    closer: TokenView,
)
    requires
        forall|i: int| 0 <= i < items.len() ==> readable(#[trigger] items[i]),
        occurs_at(ts, pos, seq![opener] + items_tokens(items) + seq![closer]),
        closer == TokenView::RParen || closer == TokenView::RBracket,
    ensures
        read_items(ts, pos + 1, closer) == Ok::<(Seq<ValueView>, int), ReadErrorView>(
            (items, pos + items_tokens(items).len() + 2),
        ),
    decreases items, 2int,
{
    let inner = items_tokens(items);
    let last = pos + 1 + inner.len();
    assert(seq![opener] + inner + seq![closer] =~= seq![opener] + (inner + seq![closer]));
    lemma_occurs_split(ts, pos, seq![opener], inner + seq![closer]);
    lemma_occurs_split(ts, pos + 1, inner, seq![closer]);
    lemma_occurs_index(ts, last, seq![closer], 0);
    lemma_read_items_tokens(ts, pos + 1, items, closer);
    assert(items + Seq::<ValueView>::empty() =~= items);
}

/// Where the tokens of readable items stand, reading items gives them, and
/// then whatever the tokens after them give.
pub proof fn lemma_read_items_tokens(
    ts: Seq<TokenView>,
    pos: int,
    items: Seq<ValueView>,
    closer: TokenView,
)
    requires
        forall|i: int| 0 <= i < items.len() ==> readable(#[trigger] items[i]),
        occurs_at(ts, pos, items_tokens(items)),
        closer == TokenView::RParen || closer == TokenView::RBracket,
    ensures
        read_items(ts, pos, closer) == with_items(
            items,
            read_items(ts, pos + items_tokens(items).len(), closer),
        ),
    decreases items, 1int,
{
    let rest = read_items(ts, pos + items_tokens(items).len(), closer);
    if items.len() == 0 {
        lemma_with_items(Seq::empty(), ValueView::Atom(AtomView::Nil), rest);
        assert(items =~= Seq::<ValueView>::empty());
    } else {
        let init = items.drop_last();
        let before = items_tokens(init);
        let after = value_tokens(items.last());
        let at = pos + before.len();
        lemma_occurs_split(ts, pos, before, after);
        assert forall|i: int| 0 <= i < init.len() implies readable(#[trigger] init[i]) by {
            assert(init[i] == items[i]);
        }
        lemma_read_items_tokens(ts, pos, init, closer);
        lemma_first_token(items.last());
        lemma_occurs_index(ts, at, after, 0);
        lemma_read_value_tokens(ts, at, items.last());
        lemma_with_items(init, items.last(), rest);
        assert(init.push(items.last()) =~= items);
    }
}

/// Reading the text of a value gives the value back, for every value that
/// is readable: one made of lists, vectors and readable atoms.
pub proof fn lemma_read_print(v: ValueView)
    requires
        readable(v),
    ensures
        tokens_of(print_value(v, false)) == Ok::<Seq<TokenView>, ParseError>(value_tokens(v)),
        read_text(print_value(v, false)) == Ok::<ValueView, ReadErrorView>(v),
{
    let text = print_value(v, false);
    let tokens = value_tokens(v);
    assert(text.subrange(0, text.len() as int) =~= text);
    lemma_tokens_of_value(text, 0, v);
    lemma_run_end(text, text.len() as int, text.len() as int, blank_class());
    lemma_with_tokens(tokens, Seq::empty(), Ok(Seq::empty()));
    assert(tokens + Seq::<TokenView>::empty() =~= tokens);
    lemma_first_token(v);
    assert(tokens.subrange(0, tokens.len() as int) =~= tokens);
    lemma_read_value_tokens(tokens, 0, v);
}

} // verus!
