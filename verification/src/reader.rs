//! The reader: from tokens to a tree of values.
//!
//! Positions in the errors of this module count tokens from the start of the
//! token sequence.

use crate::numeral::{decimal, push_digits};
use crate::parser::{
    parse_error_message, token_debug, token_views, tokenize, tokens_of, ParseError, Token,
    TokenView,
};
use crate::types::{
    entry_views, insert_entry, kind_name_of, lemma_key_index, lemma_put, put, views, well_formed,
    Atom, AtomView, Value, ValueView,
};
use vstd::prelude::*;
use vstd::string::StringExecFns;

verus! {

/// Why a text could not be read.
#[derive(Debug, PartialEq, Eq)]
pub enum ReadError {
    /// A token that cannot start a form, such as a closing bracket.
    UnexpectedToken { got: Token, expected: Option<Token>, pos: usize },
    /// The tokens ended inside a list, a vector or a hash-map, or before the
    /// form that a reader macro applies to.
    UnexpectedEndOfInput(usize),
    /// A list, a vector or a hash-map where a hash-map wants a key.
    UnhashableType(Value, usize),
    /// A hash-map with a key that has no value.
    UnevenHashMap(usize),
    /// The text could not be split into tokens.
    Parse(ParseError),
    /// The text holds no token. This is no failure: there is nothing to read.
    NoInput,
}

/// A reading error as a mathematical value.
pub enum ReadErrorView {
    UnexpectedToken { got: TokenView, expected: Option<TokenView>, pos: usize },
    UnexpectedEndOfInput(usize),
    UnhashableType(ValueView, usize),
    UnevenHashMap(usize),
    Parse(ParseError),
    NoInput,
}

impl View for ReadError {
    type V = ReadErrorView;

    open spec fn view(&self) -> ReadErrorView {
        match self {
            ReadError::UnexpectedToken { got, expected, pos } => ReadErrorView::UnexpectedToken {
                got: got@,
                expected: match expected {
                    Some(token) => Some(token@),
                    None => None,
                },
                pos: *pos,
            },
            ReadError::UnexpectedEndOfInput(pos) => ReadErrorView::UnexpectedEndOfInput(*pos),
            ReadError::UnhashableType(value, pos) => ReadErrorView::UnhashableType(value@, *pos),
            ReadError::UnevenHashMap(pos) => ReadErrorView::UnevenHashMap(*pos),
            ReadError::Parse(e) => ReadErrorView::Parse(*e),
            ReadError::NoInput => ReadErrorView::NoInput,
        }
    }
}

/// The message of a reading error. For a tokenizer error it is the
/// tokenizer's message; for `NoInput` it is empty.
pub open spec fn read_error_message(e: ReadErrorView) -> Seq<char> {
    match e {
        ReadErrorView::UnexpectedToken { got, expected, pos } => "unexpected token: "@
            + token_debug(got) + " at position "@ + decimal(pos as int) + match expected {
            Some(token) => ", expected "@ + token_debug(token),
            None => Seq::empty(),
        },
        ReadErrorView::UnexpectedEndOfInput(pos) => "unexpected end of input at position "@
            + decimal(pos as int),
        ReadErrorView::UnhashableType(value, pos) => "unhashable type "@ + kind_name_of(value)
            + " at position "@ + decimal(pos as int),
        ReadErrorView::UnevenHashMap(pos) => "odd number of elements for hashmap at position "@
            + decimal(pos as int),
        ReadErrorView::Parse(e) => parse_error_message(e),
        ReadErrorView::NoInput => Seq::empty(),
    }
}

impl ReadError {
    /// The message of the error: what went wrong, and at which position.
    /// For a tokenizer error of the kind `ParseInt` the standard library's
    /// own message follows.
    pub fn message(&self) -> (text: String)
        ensures
            !(self@ matches ReadErrorView::Parse(ParseError::ParseInt(_, _))) ==> text@
                == read_error_message(self@),
            self@ matches ReadErrorView::Parse(ParseError::ParseInt(_, _)) ==> text@.len()
                >= read_error_message(self@).len() && text@.take(
                read_error_message(self@).len() as int,
            ) == read_error_message(self@),
    {
        match self {
            ReadError::UnexpectedToken { got, expected, pos } => {
                let mut text = "unexpected token: ".to_owned();
                text.append(got.debug().as_str());
                text.append(" at position ");
                push_digits(&mut text, *pos as u64);
                match expected {
                    Some(token) => {
                        text.append(", expected ");
                        text.append(token.debug().as_str());
                        assert(text@ =~= read_error_message(self@));
                    },
                    None => {
                        assert(text@ =~= read_error_message(self@));
                    },
                }
                text
            },
            ReadError::UnexpectedEndOfInput(pos) => {
                let mut text = "unexpected end of input at position ".to_owned();
                push_digits(&mut text, *pos as u64);
                text
            },
            ReadError::UnhashableType(value, pos) => {
                let mut text = "unhashable type ".to_owned();
                text.append(value.kind_name().as_str());
                text.append(" at position ");
                push_digits(&mut text, *pos as u64);
                text
            },
            ReadError::UnevenHashMap(pos) => {
                let mut text = "odd number of elements for hashmap at position ".to_owned();
                push_digits(&mut text, *pos as u64);
                text
            },
            ReadError::Parse(e) => e.message(),
            ReadError::NoInput => String::new(),
        }
    }
}

/// The name of the symbol that a reader macro with one operand wraps its
/// operand in.
pub open spec fn macro_name(token: TokenView) -> Option<Seq<char>> {
    match token {
        TokenView::Quote => Some("quote"@),
        TokenView::Quasiquote => Some("quasiquote"@),
        TokenView::Unquote => Some("unquote"@),
        TokenView::SpliceUnquote => Some("splice-unquote"@),
        TokenView::Deref => Some("deref"@),
        _ => None,
    }
}

/// The atom that a token stands for, if it stands for one.
pub open spec fn atom_of(token: TokenView) -> Option<AtomView> {
    match token {
        TokenView::Symbol(name) => Some(AtomView::Symbol(name)),
        TokenView::Keyword(name) => Some(AtomView::Keyword(name)),
        TokenView::String(contents) => Some(AtomView::String(contents)),
        TokenView::Int(n) => Some(AtomView::Int(n)),
        TokenView::Nil => Some(AtomView::Nil),
        TokenView::True => Some(AtomView::True),
        TokenView::False => Some(AtomView::False),
        _ => None,
    }
}

/// A symbol as a value.
pub open spec fn symbol(name: Seq<char>) -> ValueView {
    ValueView::Atom(AtomView::Symbol(name))
}

/// The entries of the hash-map that is written as `items`, keys and values
/// in turn; `pos` is the position that an error reports.
///
/// The pairs are taken in order, and each key is given its value as `put`
/// says, so a later value of a key replaces an earlier one. The first pair
/// whose key is no atom is an unhashable type; a last key without a value is
/// an uneven hash-map.
pub open spec fn entries_of(items: Seq<ValueView>, pos: usize) -> Result<
    Seq<(AtomView, ValueView)>,
    ReadErrorView,
>
    decreases items.len(),
{
    if items.len() == 0 {
        Ok(Seq::empty())
    } else if items.len() % 2 == 1 {
        match entries_of(items.drop_last(), pos) {
            Ok(_) => Err(ReadErrorView::UnevenHashMap(pos)),
            Err(e) => Err(e),
        }
    } else {
        match entries_of(items.take(items.len() - 2), pos) {
            Ok(entries) => match items[items.len() - 2] {
                ValueView::Atom(key) => Ok(put(entries, key, items.last())),
                other => Err(ReadErrorView::UnhashableType(other, pos)),
            },
            Err(e) => Err(e),
        }
    }
}

/// Puts the value `first` before the items of a result.
pub open spec fn with_first(
    first: ValueView,
    r: Result<(Seq<ValueView>, int), ReadErrorView>,
) -> Result<(Seq<ValueView>, int), ReadErrorView> {
    match r {
        Ok((rest, end)) => Ok((seq![first] + rest, end)),
        Err(e) => Err(e),
    }
}

/// The form that starts with the token at `pos`, and the position after it.
///
/// An opening bracket starts a list, a vector or a hash-map, which holds the
/// forms up to the matching closing bracket. Any other token is read as
/// `read_atom` says. Where the tokens have ended there is an unexpected end
/// of input.
pub open spec fn read_form(ts: Seq<TokenView>, pos: int) -> Result<(ValueView, int), ReadErrorView>
    decreases ts.len() - pos, 1int,
{
    if pos < 0 || pos >= ts.len() {
        Err(ReadErrorView::UnexpectedEndOfInput(ts.len() as usize))
    } else {
        match ts[pos] {
            TokenView::LParen => match read_items(ts, pos + 1, TokenView::RParen) {
                Ok((items, end)) => Ok((ValueView::List(items), end)),
                Err(e) => Err(e),
            },
            TokenView::LBracket => match read_items(ts, pos + 1, TokenView::RBracket) {
                Ok((items, end)) => Ok((ValueView::Vector(items), end)),
                Err(e) => Err(e),
            },
            TokenView::LBrace => match read_items(ts, pos + 1, TokenView::RBrace) {
                Ok((items, end)) => match entries_of(items, end as usize) {
                    Ok(entries) => Ok((ValueView::HashMap(entries), end)),
                    Err(e) => Err(e),
                },
                Err(e) => Err(e),
            },
            _ => read_atom(ts, pos),
        }
    }
}

/// The forms from `pos` up to the token `closer`, and the position after it.
/// Where the tokens end before `closer` there is an unexpected end of input.
pub open spec fn read_items(ts: Seq<TokenView>, pos: int, closer: TokenView) -> Result<
    (Seq<ValueView>, int),
    ReadErrorView,
>
    decreases ts.len() - pos, 2int,
{
    if pos < 0 || pos >= ts.len() {
        Err(ReadErrorView::UnexpectedEndOfInput(ts.len() as usize))
    } else if ts[pos] == closer {
        Ok((Seq::empty(), pos + 1))
    } else {
        match read_form(ts, pos) {
            Ok((first, next)) => if pos < next <= ts.len() {
                with_first(first, read_items(ts, next, closer))
            } else {
                // A form ends after where it started: see
                // `lemma_read_form_advances`.
                Err(ReadErrorView::NoInput)
            },
            Err(e) => Err(e),
        }
    }
}

/// The form that the token at `pos` starts, where that token is no opening
/// bracket.
///
/// A token that stands for an atom gives that atom. A reader macro gives a
/// list of the macro's symbol and the form after it; `^` takes two forms,
/// the metadata and then the target, and gives the list of `with-meta`, the
/// target and the metadata. Any other token is an unexpected token, reported
/// at the position after it.
pub open spec fn read_atom(ts: Seq<TokenView>, pos: int) -> Result<(ValueView, int), ReadErrorView>
    decreases ts.len() - pos, 0int,
{
    if pos < 0 || pos >= ts.len() {
        Err(ReadErrorView::UnexpectedEndOfInput(ts.len() as usize))
    } else if macro_name(ts[pos]) is Some {
        match read_form(ts, pos + 1) {
            Ok((form, end)) => Ok(
                (ValueView::List(seq![symbol(macro_name(ts[pos])->0), form]), end),
            ),
            Err(e) => Err(e),
        }
    } else if ts[pos] == TokenView::WithMeta {
        match read_form(ts, pos + 1) {
            Ok((metadata, next)) => if pos < next <= ts.len() {
                match read_form(ts, next) {
                    Ok((target, end)) => Ok(
                        (ValueView::List(seq![symbol("with-meta"@), target, metadata]), end),
                    ),
                    Err(e) => Err(e),
                }
            } else {
                // A form ends after where it started: see
                // `lemma_read_form_advances`.
                Err(ReadErrorView::NoInput)
            },
            Err(e) => Err(e),
        }
    } else if atom_of(ts[pos]) is Some {
        Ok((ValueView::Atom(atom_of(ts[pos])->0), pos + 1))
    } else {
        Err(
            ReadErrorView::UnexpectedToken {
                got: ts[pos],
                expected: None,
                pos: (pos + 1) as usize,
            },
        )
    }
}

/// What reading a text gives: its first form, or why there is none. A text
/// without a token gives `NoInput`, and a text that cannot be split into
/// tokens gives the tokenizer's error.
pub open spec fn read_text(s: Seq<char>) -> Result<ValueView, ReadErrorView> {
    match tokens_of(s) {
        Err(e) => Err(ReadErrorView::Parse(e)),
        Ok(ts) => if ts.len() == 0 {
            Err(ReadErrorView::NoInput)
        } else {
            match read_form(ts, 0) {
                Ok((form, _)) => Ok(form),
                Err(e) => Err(e),
            }
        },
    }
}

/// A form, a run of items and an atom each end after where they started,
/// within the tokens.
pub proof fn lemma_read_form_advances(ts: Seq<TokenView>, pos: int)
    requires
        0 <= pos <= ts.len(),
    ensures
        read_form(ts, pos) matches Ok((_, end)) ==> pos < end <= ts.len(),
    decreases ts.len() - pos, 1int,
{
    if pos < ts.len() {
        match ts[pos] {
            TokenView::LParen => lemma_read_items_advances(ts, pos + 1, TokenView::RParen),
            TokenView::LBracket => lemma_read_items_advances(ts, pos + 1, TokenView::RBracket),
            TokenView::LBrace => lemma_read_items_advances(ts, pos + 1, TokenView::RBrace),
            _ => lemma_read_atom_advances(ts, pos),
        }
    }
}

pub proof fn lemma_read_items_advances(ts: Seq<TokenView>, pos: int, closer: TokenView)
    requires
        0 <= pos <= ts.len(),
    ensures
        read_items(ts, pos, closer) matches Ok((_, end)) ==> pos < end <= ts.len(),
    decreases ts.len() - pos, 2int,
{
    if pos < ts.len() && ts[pos] != closer {
        lemma_read_form_advances(ts, pos);
        if let Ok((_, next)) = read_form(ts, pos) {
            lemma_read_items_advances(ts, next, closer);
        }
    }
}

pub proof fn lemma_read_atom_advances(ts: Seq<TokenView>, pos: int)
    requires
        0 <= pos <= ts.len(),
    ensures
        read_atom(ts, pos) matches Ok((_, end)) ==> pos < end <= ts.len(),
    decreases ts.len() - pos, 0int,
{
    if pos < ts.len() {
        if macro_name(ts[pos]) is Some {
            lemma_read_form_advances(ts, pos + 1);
        } else if ts[pos] == TokenView::WithMeta {
            lemma_read_form_advances(ts, pos + 1);
            if let Ok((_, next)) = read_form(ts, pos + 1) {
                lemma_read_form_advances(ts, next);
            }
        }
    }
}

/// Puts `prefix` before the items of a result.
pub open spec fn with_items(
    prefix: Seq<ValueView>,
    r: Result<(Seq<ValueView>, int), ReadErrorView>,
) -> Result<(Seq<ValueView>, int), ReadErrorView> {
    match r {
        Ok((rest, end)) => Ok((prefix + rest, end)),
        Err(e) => Err(e),
    }
}

/// The hash-map that the forms from `pos` up to the closing brace make, and
/// the position after the brace.
pub open spec fn read_map(ts: Seq<TokenView>, pos: int) -> Result<(ValueView, int), ReadErrorView> {
    match read_items(ts, pos, TokenView::RBrace) {
        Ok((items, end)) => match entries_of(items, end as usize) {
            Ok(entries) => Ok((ValueView::HashMap(entries), end)),
            Err(e) => Err(e),
        },
        Err(e) => Err(e),
    }
}

/// The view of a form that was read, with the position at which reading
/// stopped.
pub open spec fn form_view(r: Result<Value, ReadError>, end: int) -> Result<
    (ValueView, int),
    ReadErrorView,
> {
    match r {
        Ok(value) => Ok((value@, end)),
        Err(e) => Err(e@),
    }
}

/// The view of the items that were read, with the position at which reading
/// stopped.
pub open spec fn items_view(r: Result<Vec<Value>, ReadError>, end: int) -> Result<
    (Seq<ValueView>, int),
    ReadErrorView,
> {
    match r {
        Ok(items) => Ok((views(items@), end)),
        Err(e) => Err(e@),
    }
}

/// The view of what reading a text gave.
pub open spec fn read_view(r: Result<Value, ReadError>) -> Result<ValueView, ReadErrorView> {
    match r {
        Ok(value) => Ok(value@),
        Err(e) => Err(e@),
    }
}

/// The list of the symbol called `name` and of the forms `first` and, if
/// there is one, `second`.
fn macro_form(name: &str, first: Value, second: Option<Value>) -> (form: Value)
    ensures
        form@ == ValueView::List(
            match second {
                Some(other) => seq![symbol(name@), first@, other@],
                None => seq![symbol(name@), first@],
            },
        ),
{
    let mut items: Vec<Value> = Vec::new();
    items.push(Value::Atom(Atom::Symbol(name.to_owned())));
    items.push(first);
    match second {
        Some(other) => {
            items.push(other);
            assert(views(items@) =~= seq![symbol(name@), first@, other@]);
        },
        None => {
            assert(views(items@) =~= seq![symbol(name@), first@]);
        },
    }
    Value::List(items)
}

/// A cursor over a sequence of tokens.
pub(crate) struct Reader {
    pub tokens: Vec<Token>,
    pub pos: usize,
}

impl Reader {
    /// The cursor stands within the tokens or at their end.
    pub(crate) open spec fn wf(&self) -> bool {
        self.pos <= self.tokens.len()
    }

    /// The tokens as mathematical values.
    pub(crate) open spec fn stream(&self) -> Seq<TokenView> {
        token_views(self.tokens@)
    }

    /// A cursor before the first of `tokens`.
    fn new(tokens: Vec<Token>) -> (reader: Reader)
        ensures
            reader.tokens == tokens,
            reader.pos == 0,
    {
        Reader { tokens, pos: 0 }
    }

    /// The token under the cursor, if the tokens have not ended.
    fn peek(&self) -> (token: Option<Token>)
        requires
            self.wf(),
        ensures
            token == if self.pos < self.tokens.len() {
                Some(self.tokens@[self.pos as int])
            } else {
                None
            },
    {
        if self.pos < self.tokens.len() {
            Some(self.tokens[self.pos].clone())
        } else {
            None
        }
    }

    /// The token under the cursor, if the tokens have not ended; the cursor
    /// then moves over it.
    fn next(&mut self) -> (token: Option<Token>)
        requires
            old(self).wf(),
        ensures
            final(self).tokens == old(self).tokens,
            final(self).wf(),
            token == if old(self).pos < old(self).tokens.len() {
                Some(old(self).tokens@[old(self).pos as int])
            } else {
                None
            },
            final(self).pos == old(self).pos + if token is Some {
                1int
            } else {
                0
            },
    {
        let token = self.peek();
        if token.is_some() {
            self.pos += 1;
        }
        token
    }

    /// Reads one form: `read_form` says which.
    fn read_form(&mut self) -> (r: Result<Value, ReadError>)
        requires
            old(self).wf(),
        ensures
            final(self).tokens == old(self).tokens,
            final(self).wf(),
            form_view(r, final(self).pos as int) == read_form(
                old(self).stream(),
                old(self).pos as int,
            ),
        decreases old(self).tokens.len() - old(self).pos, 1int,
    {
        match self.peek() {
            Some(Token::LParen) => {
                self.next();
                self.read_list()
            },
            Some(Token::LBracket) => {
                self.next();
                self.read_vector()
            },
            Some(Token::LBrace) => {
                self.next();
                self.read_map()
            },
            Some(_) => self.read_atom(),
            None => Err(ReadError::UnexpectedEndOfInput(self.pos)),
        }
    }

    /// Reads the items of a list, after its opening bracket.
    fn read_list(&mut self) -> (r: Result<Value, ReadError>)
        requires
            old(self).wf(),
        ensures
            final(self).tokens == old(self).tokens,
            final(self).wf(),
            form_view(r, final(self).pos as int) == match read_items(
                old(self).stream(),
                old(self).pos as int,
                TokenView::RParen,
            ) {
                Ok((items, end)) => Ok((ValueView::List(items), end)),
                Err(e) => Err(e),
            },
        decreases old(self).tokens.len() - old(self).pos, 3int,
    {
        match self.read_list_items(Token::RParen) {
            Ok(items) => Ok(Value::List(items)),
            Err(e) => Err(e),
        }
    }

    /// Reads the items of a vector, after its opening bracket.
    fn read_vector(&mut self) -> (r: Result<Value, ReadError>)
        requires
            old(self).wf(),
        ensures
            final(self).tokens == old(self).tokens,
            final(self).wf(),
            form_view(r, final(self).pos as int) == match read_items(
                old(self).stream(),
                old(self).pos as int,
                TokenView::RBracket,
            ) {
                Ok((items, end)) => Ok((ValueView::Vector(items), end)),
                Err(e) => Err(e),
            },
        decreases old(self).tokens.len() - old(self).pos, 3int,
    {
        match self.read_list_items(Token::RBracket) {
            Ok(items) => Ok(Value::Vector(items)),
            Err(e) => Err(e),
        }
    }

    /// Reads the keys and values of a hash-map, after its opening brace, and
    /// pairs them up.
    fn read_map(&mut self) -> (r: Result<Value, ReadError>)
        requires
            old(self).wf(),
        ensures
            final(self).tokens == old(self).tokens,
            final(self).wf(),
            form_view(r, final(self).pos as int) == read_map(
                old(self).stream(),
                old(self).pos as int,
            ),
        decreases old(self).tokens.len() - old(self).pos, 3int,
    {
        let items = match self.read_list_items(Token::RBrace) {
            Ok(items) => items,
            Err(e) => {
                return Err(e);
            },
        };
        let ghost all = views(items@);
        let pos = self.pos;
        let mut map: Vec<(Atom, Value)> = Vec::new();
        let mut key: Option<Value> = None;
        proof {
            assert(all.take(0) =~= Seq::<ValueView>::empty());
            assert(entry_views(map@) =~= Seq::<(AtomView, ValueView)>::empty());
        }
        for item in it: items.into_iter()
            invariant
                self.tokens == old(self).tokens,
                self.wf(),
                self.pos == pos,
                read_items(old(self).stream(), old(self).pos as int, TokenView::RBrace) == Ok::<
                    (Seq<ValueView>, int),
                    ReadErrorView,
                >((all, pos as int)),
                it.seq() == items@,
                all == views(items@),
                match key {
                    Some(k) => {
                        &&& it.index() % 2 == 1
                        &&& k@ == all[it.index() - 1]
                        &&& entries_of(all.take(it.index() - 1), pos) == Ok::<
                            Seq<(AtomView, ValueView)>,
                            ReadErrorView,
                        >(entry_views(map@))
                    },
                    None => {
                        &&& it.index() % 2 == 0
                        &&& entries_of(all.take(it.index() as int), pos) == Ok::<
                            Seq<(AtomView, ValueView)>,
                            ReadErrorView,
                        >(entry_views(map@))
                    },
                },
        {
            let ghost i = it.index();
            match key {
                None => {
                    key = Some(item);
                },
                Some(k) => {
                    proof {
                        let pair = all.take(i + 1);
                        assert(pair.take(pair.len() - 2) =~= all.take(i - 1));
                        assert(pair[pair.len() - 2] == k@);
                        assert(pair.last() == item@);
                        if !(k is Atom) {
                            lemma_entries_of_error(all, i + 1, pos);
                        }
                    }
                    match k {
                        Value::Atom(atom) => {
                            insert_entry(&mut map, atom, item);
                        },
                        other => {
                            return Err(ReadError::UnhashableType(other, pos));
                        },
                    }
                    key = None;
                },
            }
        }
        proof {
            assert(all.take(all.len() as int) =~= all);
        }
        if key.is_some() {
            proof {
                assert(all.drop_last() =~= all.take(all.len() - 1));
            }
            return Err(ReadError::UnevenHashMap(pos));
        }
        Ok(Value::HashMap(map))
    }

    /// Reads forms up to the token `terminator`, and moves over it.
    fn read_list_items(&mut self, terminator: Token) -> (r: Result<Vec<Value>, ReadError>)
        requires
            old(self).wf(),
        ensures
            final(self).tokens == old(self).tokens,
            final(self).wf(),
            items_view(r, final(self).pos as int) == read_items(
                old(self).stream(),
                old(self).pos as int,
                terminator@,
            ),
        decreases old(self).tokens.len() - old(self).pos, 2int,
    {
        let ghost ts = self.stream();
        let ghost start = self.pos as int;
        let mut result: Vec<Value> = Vec::new();
        loop
            invariant
                self.tokens == old(self).tokens,
                ts == self.stream(),
                start == old(self).pos,
                start <= self.pos <= self.tokens.len(),
                read_items(ts, start, terminator@) == with_items(
                    views(result@),
                    read_items(ts, self.pos as int, terminator@),
                ),
            decreases self.tokens.len() - self.pos,
        {
            let ghost seen = views(result@);
            let ghost before = self.pos as int;
            match self.peek() {
                Some(t) => {
                    if t == terminator {
                        self.next();
                        assert(seen + Seq::<ValueView>::empty() =~= seen);
                        return Ok(result);
                    }
                    proof {
                        lemma_read_form_advances(ts, before);
                    }
                    match self.read_form() {
                        Ok(form) => {
                            result.push(form);
                            proof {
                                let rest = read_items(ts, self.pos as int, terminator@);
                                assert(views(result@) =~= seen.push(form@));
                                if rest is Ok {
                                    assert(seen + (seq![form@] + rest->Ok_0.0) =~= seen.push(
                                        form@,
                                    ) + rest->Ok_0.0);
                                }
                            }
                        },
                        Err(e) => {
                            return Err(e);
                        },
                    }
                },
                None => {
                    return Err(ReadError::UnexpectedEndOfInput(self.pos));
                },
            }
        }
    }

    /// Reads a form that starts with no opening bracket: `read_atom` says
    /// which.
    fn read_atom(&mut self) -> (r: Result<Value, ReadError>)
        requires
            old(self).wf(),
        ensures
            final(self).tokens == old(self).tokens,
            final(self).wf(),
            form_view(r, final(self).pos as int) == read_atom(
                old(self).stream(),
                old(self).pos as int,
            ),
        decreases old(self).tokens.len() - old(self).pos, 0int,
    {
        let ghost ts = self.stream();
        let ghost start = self.pos as int;
        match self.next() {
            Some(Token::Quote) => match self.read_form() {
                Ok(form) => Ok(macro_form("quote", form, None)),
                Err(e) => Err(e),
            },
            Some(Token::Quasiquote) => match self.read_form() {
                Ok(form) => Ok(macro_form("quasiquote", form, None)),
                Err(e) => Err(e),
            },
            Some(Token::Unquote) => match self.read_form() {
                Ok(form) => Ok(macro_form("unquote", form, None)),
                Err(e) => Err(e),
            },
            Some(Token::SpliceUnquote) => match self.read_form() {
                Ok(form) => Ok(macro_form("splice-unquote", form, None)),
                Err(e) => Err(e),
            },
            Some(Token::Deref) => match self.read_form() {
                Ok(form) => Ok(macro_form("deref", form, None)),
                Err(e) => Err(e),
            },
            Some(Token::WithMeta) => {
                proof {
                    lemma_read_form_advances(ts, start + 1);
                }
                let metadata = match self.read_form() {
                    Ok(form) => form,
                    Err(e) => {
                        return Err(e);
                    },
                };
                match self.read_form() {
                    Ok(target) => Ok(macro_form("with-meta", target, Some(metadata))),
                    Err(e) => Err(e),
                }
            },
            Some(Token::Symbol(sym)) => Ok(Value::Atom(Atom::Symbol(sym))),
            Some(Token::Keyword(keyword)) => Ok(Value::Atom(Atom::Keyword(keyword))),
            Some(Token::String(string)) => Ok(Value::Atom(Atom::String(string))),
            Some(Token::Int(n)) => Ok(Value::Atom(Atom::Int(n))),
            Some(Token::Nil) => Ok(Value::Atom(Atom::Nil)),
            Some(Token::True) => Ok(Value::Atom(Atom::True)),
            Some(Token::False) => Ok(Value::Atom(Atom::False)),
            Some(t) => Err(ReadError::UnexpectedToken { got: t, expected: None, pos: self.pos }),
            None => Err(ReadError::UnexpectedEndOfInput(self.pos)),
        }
    }
}

/// Every value among `items` is well formed.
pub open spec fn all_well_formed(items: Seq<ValueView>) -> bool {
    forall|i: int| 0 <= i < items.len() ==> well_formed(#[trigger] items[i])
}

/// The entries made of well-formed items have each key once and hold
/// well-formed values.
pub proof fn lemma_entries_of_well_formed(items: Seq<ValueView>, pos: usize)
    requires
        all_well_formed(items),
    ensures
        entries_of(items, pos) matches Ok(entries) ==> well_formed(ValueView::HashMap(entries)),
    decreases items.len(),
{
    if items.len() > 0 && items.len() % 2 == 0 {
        let shorter = items.take(items.len() - 2);
        assert forall|i: int| 0 <= i < shorter.len() implies well_formed(#[trigger] shorter[i]) by {
            assert(shorter[i] == items[i]);
        }
        lemma_entries_of_well_formed(shorter, pos);
        if let Ok(before) = entries_of(shorter, pos) {
            if let ValueView::Atom(key) = items[items.len() - 2] {
                let after = put(before, key, items.last());
                lemma_put(before, key, items.last());
                lemma_key_index(before, key, 0);
                assert forall|i: int| 0 <= i < after.len() implies well_formed(
                    (#[trigger] after[i]).1,
                ) by {
                    if after[i] != (key, items.last()) {
                        assert(after[i] == before[i]);
                    }
                }
            }
        }
    }
}

/// A form that was read is well formed: no hash-map in it has a key twice.
pub proof fn lemma_read_form_well_formed(ts: Seq<TokenView>, pos: int)
    requires
        0 <= pos <= ts.len(),
    ensures
        read_form(ts, pos) matches Ok((form, _)) ==> well_formed(form),
    decreases ts.len() - pos, 1int,
{
    if pos < ts.len() {
        match ts[pos] {
            TokenView::LParen => lemma_read_items_well_formed(ts, pos + 1, TokenView::RParen),
            TokenView::LBracket => lemma_read_items_well_formed(ts, pos + 1, TokenView::RBracket),
            TokenView::LBrace => {
                lemma_read_items_well_formed(ts, pos + 1, TokenView::RBrace);
                if let Ok((items, end)) = read_items(ts, pos + 1, TokenView::RBrace) {
                    lemma_entries_of_well_formed(items, end as usize);
                }
            },
            _ => lemma_read_atom_well_formed(ts, pos),
        }
    }
}

/// The items that were read are well formed.
pub proof fn lemma_read_items_well_formed(ts: Seq<TokenView>, pos: int, closer: TokenView)
    requires
        0 <= pos <= ts.len(),
    ensures
        read_items(ts, pos, closer) matches Ok((items, _)) ==> all_well_formed(items),
    decreases ts.len() - pos, 2int,
{
    if pos < ts.len() && ts[pos] != closer {
        lemma_read_form_well_formed(ts, pos);
        lemma_read_form_advances(ts, pos);
        if let Ok((first, next)) = read_form(ts, pos) {
            lemma_read_items_well_formed(ts, next, closer);
            if let Ok((rest, _)) = read_items(ts, next, closer) {
                let items = seq![first] + rest;
                assert forall|i: int| 0 <= i < items.len() implies well_formed(
                    #[trigger] items[i],
                ) by {
                    if i > 0 {
                        assert(items[i] == rest[i - 1]);
                    }
                }
            }
        }
    }
}

/// What a reader macro or an atom token gives is well formed.
pub proof fn lemma_read_atom_well_formed(ts: Seq<TokenView>, pos: int)
    requires
        0 <= pos <= ts.len(),
    ensures
        read_atom(ts, pos) matches Ok((form, _)) ==> well_formed(form),
    decreases ts.len() - pos, 0int,
{
    if pos < ts.len() {
        if macro_name(ts[pos]) is Some {
            lemma_read_form_well_formed(ts, pos + 1);
            if let Ok((form, _)) = read_form(ts, pos + 1) {
                let items = seq![symbol(macro_name(ts[pos])->0), form];
                assert forall|i: int| 0 <= i < items.len() implies well_formed(
                    #[trigger] items[i],
                ) by {}
            }
        } else if ts[pos] == TokenView::WithMeta {
            lemma_read_form_well_formed(ts, pos + 1);
            lemma_read_form_advances(ts, pos + 1);
            if let Ok((metadata, next)) = read_form(ts, pos + 1) {
                lemma_read_form_well_formed(ts, next);
                if let Ok((target, _)) = read_form(ts, next) {
                    let items = seq![symbol("with-meta"@), target, metadata];
                    assert forall|i: int| 0 <= i < items.len() implies well_formed(
                        #[trigger] items[i],
                    ) by {}
                }
            }
        }
    }
}

/// A value that was read from a text is well formed.
pub proof fn lemma_read_text_well_formed(s: Seq<char>)
    ensures
        read_text(s) matches Ok(form) ==> well_formed(form),
{
    if let Ok(ts) = tokens_of(s) {
        lemma_read_form_well_formed(ts, 0);
    }
}

/// An error among the first pairs of a hash-map is the error of the whole.
pub proof fn lemma_entries_of_error(items: Seq<ValueView>, n: int, pos: usize)
    requires
        0 <= n <= items.len(),
        n % 2 == 0,
        entries_of(items.take(n), pos) is Err,
    ensures
        entries_of(items, pos) == entries_of(items.take(n), pos),
    decreases items.len() - n,
{
    if n == items.len() {
        assert(items.take(n) =~= items);
    } else if items.len() % 2 == 1 {
        assert(items.drop_last().take(n) =~= items.take(n));
        lemma_entries_of_error(items.drop_last(), n, pos);
    } else {
        let shorter = items.take(items.len() - 2);
        assert(shorter.take(n) =~= items.take(n));
        lemma_entries_of_error(shorter, n, pos);
    }
}

/// Reads the first form of a text.
///
/// The text is split into tokens and the tokens are assembled into one
/// value: `read_text` says which. A text without a token, such as an empty
/// text or a comment, gives `NoInput`. Every hash-map in the value has each
/// of its keys once.
pub fn read_str(input: &str) -> (r: Result<Value, ReadError>)
    ensures
        read_view(r) == read_text(input@),
        r matches Ok(value) ==> well_formed(value@),
{
    proof {
        lemma_read_text_well_formed(input@);
    }
    let tokens = match tokenize(input) {
        Ok(tokens) => tokens,
        Err(e) => {
            return Err(ReadError::Parse(e));
        },
    };
    if tokens.len() == 0 {
        return Err(ReadError::NoInput);
    }
    let mut reader = Reader::new(tokens);
    reader.read_form()
}

} // verus!
