//! The tokenizer: from text to a flat sequence of tokens.
//!
//! Positions count characters from the start of the text.

use crate::chars::{
    alphanumeric, alphanumeric_class, blank_class, comment_class, is_blank, is_symbol_char,
    symbol_class, whitespace,
};
use crate::numeral::{decimal, parse_i32, parse_int, push_decimal, push_digits};
use vstd::prelude::*;
use vstd::std_specs::cmp::PartialEqSpecImpl;
use vstd::string::StringExecFns;

verus! {

/// A lexical unit.
#[derive(Debug)]
pub enum Token {
    LParen,
    RParen,
    LBracket,
    RBracket,
    LBrace,
    RBrace,
    Quote,
    Quasiquote,
    Unquote,
    SpliceUnquote,
    Deref,
    WithMeta,
    Symbol(String),
    Keyword(String),
    String(String),
    Int(i32),
    Nil,
    True,
    False,
}

/// A token as a mathematical value: its text is a sequence of characters.
pub enum TokenView {
    LParen,
    RParen,
    LBracket,
    RBracket,
    LBrace,
    RBrace,
    Quote,
    Quasiquote,
    Unquote,
    SpliceUnquote,
    Deref,
    WithMeta,
    Symbol(Seq<char>),
    Keyword(Seq<char>),
    String(Seq<char>),
    Int(i32),
    Nil,
    True,
    False,
}

impl View for Token {
    type V = TokenView;

    open spec fn view(&self) -> TokenView {
        match self {
            Token::LParen => TokenView::LParen,
            Token::RParen => TokenView::RParen,
            Token::LBracket => TokenView::LBracket,
            Token::RBracket => TokenView::RBracket,
            Token::LBrace => TokenView::LBrace,
            Token::RBrace => TokenView::RBrace,
            Token::Quote => TokenView::Quote,
            Token::Quasiquote => TokenView::Quasiquote,
            Token::Unquote => TokenView::Unquote,
            Token::SpliceUnquote => TokenView::SpliceUnquote,
            Token::Deref => TokenView::Deref,
            Token::WithMeta => TokenView::WithMeta,
            Token::Symbol(text) => TokenView::Symbol(text@),
            Token::Keyword(text) => TokenView::Keyword(text@),
            Token::String(text) => TokenView::String(text@),
            Token::Int(n) => TokenView::Int(*n),
            Token::Nil => TokenView::Nil,
            Token::True => TokenView::True,
            Token::False => TokenView::False,
        }
    }
}

impl Clone for Token {
    fn clone(&self) -> (copy: Token)
        ensures
            copy == *self,
    {
        match self {
            Token::LParen => Token::LParen,
            Token::RParen => Token::RParen,
            Token::LBracket => Token::LBracket,
            Token::RBracket => Token::RBracket,
            Token::LBrace => Token::LBrace,
            Token::RBrace => Token::RBrace,
            Token::Quote => Token::Quote,
            Token::Quasiquote => Token::Quasiquote,
            Token::Unquote => Token::Unquote,
            Token::SpliceUnquote => Token::SpliceUnquote,
            Token::Deref => Token::Deref,
            Token::WithMeta => Token::WithMeta,
            Token::Symbol(text) => Token::Symbol(text.clone()),
            Token::Keyword(text) => Token::Keyword(text.clone()),
            Token::String(text) => Token::String(text.clone()),
            Token::Int(n) => Token::Int(*n),
            Token::Nil => Token::Nil,
            Token::True => Token::True,
            Token::False => Token::False,
        }
    }
}

impl PartialEq for Token {
    fn eq(&self, other: &Token) -> (r: bool) {
        match (self, other) {
            (Token::LParen, Token::LParen) => true,
            (Token::RParen, Token::RParen) => true,
            (Token::LBracket, Token::LBracket) => true,
            (Token::RBracket, Token::RBracket) => true,
            (Token::LBrace, Token::LBrace) => true,
            (Token::RBrace, Token::RBrace) => true,
            (Token::Quote, Token::Quote) => true,
            (Token::Quasiquote, Token::Quasiquote) => true,
            (Token::Unquote, Token::Unquote) => true,
            (Token::SpliceUnquote, Token::SpliceUnquote) => true,
            (Token::Deref, Token::Deref) => true,
            (Token::WithMeta, Token::WithMeta) => true,
            (Token::Symbol(a), Token::Symbol(b)) => *a == *b,
            (Token::Keyword(a), Token::Keyword(b)) => *a == *b,
            (Token::String(a), Token::String(b)) => *a == *b,
            (Token::Int(a), Token::Int(b)) => *a == *b,
            (Token::Nil, Token::Nil) => true,
            (Token::True, Token::True) => true,
            (Token::False, Token::False) => true,
            _ => false,
        }
    }
}

impl PartialEqSpecImpl for Token {
    open spec fn obeys_eq_spec() -> bool {
        true
    }

    /// Two tokens are equal when they are the same kind of token with the
    /// same text or number.
    open spec fn eq_spec(&self, other: &Token) -> bool {
        self@ == other@
    }
}

impl Eq for Token {

}

/// `std::num::ParseIntError`, the error that the standard library gives for
/// a text that is no integer. Trusted as a type only: nothing is known of a
/// value of it.
#[verifier::external_type_specification]
#[verifier::external_body]
pub struct ExParseIntError(std::num::ParseIntError);

/// Why a text could not be split into tokens, and where.
#[derive(Debug, PartialEq, Eq)]
pub enum ParseError {
    /// A character that cannot start or continue a token, or that is not the
    /// one expected.
    UnexpectedCharacter { got: char, expected: Option<char>, pos: usize },
    /// The text ended inside a string.
    UnexpectedEndOfInput(usize),
    /// A numeral that is no 32-bit integer. The tokenizer reads such a
    /// numeral as a symbol and never gives this error.
    ParseInt(std::num::ParseIntError, usize),
    /// A backslash in a string before a character other than a backslash, a
    /// double quote or the letter `n`.
    UnknownEscapeSequence(char, usize),
}

/// How the standard library writes a text for debugging: between double
/// quotes, with escapes. The contracts refer to it by name only.
pub uninterp spec fn debug_text(text: Seq<char>) -> Seq<char>;

/// Formats a text with `{:?}`, the `Debug` format of `str`. Trusted: the
/// result depends on the characters of `text` alone; it is given a name and
/// not spelled out.
#[verifier::external_body]
fn debug_string(text: &str) -> (r: String)
    ensures
        r@ == debug_text(text@),
{
    format!("{text:?}")
}

/// Formats a `std::num::ParseIntError` with `{}`, its `Display` format.
/// Trusted; nothing is claimed of the text.
#[verifier::external_body]
fn int_error_string(e: &std::num::ParseIntError) -> String {
    format!("{e}")
}

/// The text of a token in messages: the name of its kind, and for a token
/// with a text or a number that text, written for debugging, or that number
/// between round brackets.
pub open spec fn token_debug(token: TokenView) -> Seq<char> {
    match token {
        TokenView::LParen => "LParen"@,
        TokenView::RParen => "RParen"@,
        TokenView::LBracket => "LBracket"@,
        TokenView::RBracket => "RBracket"@,
        TokenView::LBrace => "LBrace"@,
        TokenView::RBrace => "RBrace"@,
        TokenView::Quote => "Quote"@,
        TokenView::Quasiquote => "Quasiquote"@,
        TokenView::Unquote => "Unquote"@,
        TokenView::SpliceUnquote => "SpliceUnquote"@,
        TokenView::Deref => "Deref"@,
        TokenView::WithMeta => "WithMeta"@,
        TokenView::Symbol(text) => "Symbol("@ + debug_text(text) + ")"@,
        TokenView::Keyword(text) => "Keyword("@ + debug_text(text) + ")"@,
        TokenView::String(text) => "String("@ + debug_text(text) + ")"@,
        TokenView::Int(n) => "Int("@ + decimal(n as int) + ")"@,
        TokenView::Nil => "Nil"@,
        TokenView::True => "True"@,
        TokenView::False => "False"@,
    }
}

/// The opening `open`, then `text` written for debugging, then a closing
/// round bracket.
fn wrapped(open: &str, text: &str) -> (r: String)
    ensures
        r@ == open@ + debug_text(text@) + ")"@,
{
    let mut r = open.to_owned();
    r.append(debug_string(text).as_str());
    r.append(")");
    r
}

impl Token {
    /// The text of the token in messages.
    pub fn debug(&self) -> (text: String)
        ensures
            text@ == token_debug(self@),
    {
        match self {
            Token::LParen => "LParen".to_owned(),
            Token::RParen => "RParen".to_owned(),
            Token::LBracket => "LBracket".to_owned(),
            Token::RBracket => "RBracket".to_owned(),
            Token::LBrace => "LBrace".to_owned(),
            Token::RBrace => "RBrace".to_owned(),
            Token::Quote => "Quote".to_owned(),
            Token::Quasiquote => "Quasiquote".to_owned(),
            Token::Unquote => "Unquote".to_owned(),
            Token::SpliceUnquote => "SpliceUnquote".to_owned(),
            Token::Deref => "Deref".to_owned(),
            Token::WithMeta => "WithMeta".to_owned(),
            Token::Symbol(text) => wrapped("Symbol(", text.as_str()),
            Token::Keyword(text) => wrapped("Keyword(", text.as_str()),
            Token::String(text) => wrapped("String(", text.as_str()),
            Token::Int(n) => {
                let mut text = "Int(".to_owned();
                push_decimal(&mut text, *n);
                text.append(")");
                text
            },
            Token::Nil => "Nil".to_owned(),
            Token::True => "True".to_owned(),
            Token::False => "False".to_owned(),
        }
    }
}

/// The message of a tokenizer error, but for what follows the colon in the
/// message of `ParseInt`, which is the standard library's.
pub open spec fn parse_error_message(e: ParseError) -> Seq<char> {
    match e {
        ParseError::UnexpectedCharacter { got, expected, pos } => "unexpected character: "@
            + seq![got] + " at position "@ + decimal(pos as int) + match expected {
            Some(c) => ", expected: "@ + seq![c],
            None => Seq::empty(),
        },
        ParseError::UnexpectedEndOfInput(pos) => "unexpected end of input at position "@
            + decimal(pos as int),
        ParseError::ParseInt(_, pos) => "parse int error at position "@ + decimal(pos as int)
            + ": "@,
        ParseError::UnknownEscapeSequence(c, pos) => "unknown escape sequence: \\"@ + seq![c]
            + " at position "@ + decimal(pos as int),
    }
}

impl ParseError {
    /// The message of the error: what went wrong, and at which position.
    /// For `ParseInt` the standard library's own message follows.
    pub fn message(&self) -> (text: String)
        ensures
            !(self is ParseInt) ==> text@ == parse_error_message(*self),
            self is ParseInt ==> text@.len() >= parse_error_message(*self).len() && text@.take(
                parse_error_message(*self).len() as int,
            ) == parse_error_message(*self),
    {
        match self {
            ParseError::UnexpectedCharacter { got, expected, pos } => {
                let mut text = "unexpected character: ".to_owned();
                text.push(*got);
                text.append(" at position ");
                push_digits(&mut text, *pos as u64);
                match expected {
                    Some(c) => {
                        text.append(", expected: ");
                        text.push(*c);
                        assert(text@ =~= parse_error_message(*self));
                    },
                    None => {
                        assert(text@ =~= parse_error_message(*self));
                    },
                }
                text
            },
            ParseError::UnexpectedEndOfInput(pos) => {
                let mut text = "unexpected end of input at position ".to_owned();
                push_digits(&mut text, *pos as u64);
                text
            },
            ParseError::ParseInt(e, pos) => {
                let mut text = "parse int error at position ".to_owned();
                push_digits(&mut text, *pos as u64);
                text.append(": ");
                let ghost head = text@;
                text.append(int_error_string(e).as_str());
                assert(text@.take(head.len() as int) =~= head);
                text
            },
            ParseError::UnknownEscapeSequence(c, pos) => {
                let mut text = "unknown escape sequence: \\".to_owned();
                text.push(*c);
                text.append(" at position ");
                push_digits(&mut text, *pos as u64);
                text
            },
        }
    }
}

/// The views of a sequence of tokens.
pub open spec fn token_views(tokens: Seq<Token>) -> Seq<TokenView> {
    Seq::new(tokens.len(), |i: int| tokens[i]@)
}

/// Where the longest run of characters of a class that starts at `pos` ends.
pub open spec fn run_end(s: Seq<char>, pos: int, class: spec_fn(char) -> bool) -> int
    decreases s.len() - pos,
{
    if 0 <= pos < s.len() && class(s[pos]) {
        run_end(s, pos + 1, class)
    } else {
        pos
    }
}

/// The token that a single character is, for the characters that are a token
/// by themselves.
pub open spec fn structural_token(c: char) -> Option<TokenView> {
    if c == '(' {
        Some(TokenView::LParen)
    } else if c == ')' {
        Some(TokenView::RParen)
    } else if c == '[' {
        Some(TokenView::LBracket)
    } else if c == ']' {
        Some(TokenView::RBracket)
    } else if c == '{' {
        Some(TokenView::LBrace)
    } else if c == '}' {
        Some(TokenView::RBrace)
    } else if c == '\'' {
        Some(TokenView::Quote)
    } else if c == '`' {
        Some(TokenView::Quasiquote)
    } else if c == '@' {
        Some(TokenView::Deref)
    } else if c == '^' {
        Some(TokenView::WithMeta)
    } else {
        None
    }
}

/// The token that a run of symbol characters is: one of the three named
/// atoms, else a 32-bit integer if the text denotes one, else a symbol.
pub open spec fn classify(text: Seq<char>) -> TokenView {
    if text == "nil"@ {
        TokenView::Nil
    } else if text == "true"@ {
        TokenView::True
    } else if text == "false"@ {
        TokenView::False
    } else {
        match parse_i32(text) {
            Some(n) => TokenView::Int(n),
            None => TokenView::Symbol(text),
        }
    }
}

/// The character that stands after a backslash in a string, decoded.
pub open spec fn unescaped(c: char) -> char {
    if c == 'n' {
        '\n'
    } else {
        c
    }
}

/// The characters that may stand after a backslash in a string.
pub open spec fn is_escape(c: char) -> bool {
    c == '\\' || c == '"' || c == 'n'
}

/// Puts `prefix` before the text of a decoded string.
pub open spec fn with_prefix(
    prefix: Seq<char>,
    r: Result<(Seq<char>, int), ParseError>,
) -> Result<(Seq<char>, int), ParseError> {
    match r {
        Ok((rest, end)) => Ok((prefix + rest, end)),
        Err(e) => Err(e),
    }
}

/// Decodes the inside of a string from `pos`, which is just after the opening
/// quote: gives the contents without escapes and the position after the
/// closing quote. A backslash before `\`, `"` or `n` stands for a backslash,
/// a quote or a line feed. A backslash before another character is an
/// unknown escape sequence at that character; a text that ends before the
/// closing quote is an unexpected end of input at its end.
pub open spec fn unescape(s: Seq<char>, pos: int) -> Result<(Seq<char>, int), ParseError>
    decreases s.len() - pos,
{
    if pos < 0 || pos >= s.len() {
        Err(ParseError::UnexpectedEndOfInput(s.len() as usize))
    } else if s[pos] == '"' {
        Ok((Seq::empty(), pos + 1))
    } else if s[pos] == '\\' {
        if pos + 1 >= s.len() {
            Err(ParseError::UnexpectedEndOfInput(s.len() as usize))
        } else if is_escape(s[pos + 1]) {
            with_prefix(seq![unescaped(s[pos + 1])], unescape(s, pos + 2))
        } else {
            Err(ParseError::UnknownEscapeSequence(s[pos + 1], (pos + 1) as usize))
        }
    } else {
        with_prefix(seq![s[pos]], unescape(s, pos + 1))
    }
}

/// Whether `expected` stands at `pos`: another character there is an
/// unexpected character, and the end of the text an unexpected end of input.
pub open spec fn expect_at(s: Seq<char>, pos: int, expected: char) -> Result<(), ParseError> {
    if pos < 0 || pos >= s.len() {
        Err(ParseError::UnexpectedEndOfInput(pos as usize))
    } else if s[pos] == expected {
        Ok(())
    } else {
        Err(
            ParseError::UnexpectedCharacter {
                got: s[pos],
                expected: Some(expected),
                pos: pos as usize,
            },
        )
    }
}

/// The keyword at `pos`, and the position after it: a colon, then the
/// longest run of letters and digits, which is the keyword's name.
pub open spec fn keyword_at(s: Seq<char>, pos: int) -> Result<(TokenView, int), ParseError> {
    match expect_at(s, pos, ':') {
        Ok(_) => {
            let end = run_end(s, pos + 1, alphanumeric_class());
            Ok((TokenView::Keyword(s.subrange(pos + 1, end)), end))
        },
        Err(e) => Err(e),
    }
}

/// The string at `pos`, and the position after it: a double quote, then the
/// contents up to the closing quote, decoded as `unescape` says.
pub open spec fn string_at(s: Seq<char>, pos: int) -> Result<(TokenView, int), ParseError> {
    match expect_at(s, pos, '"') {
        Ok(_) => match unescape(s, pos + 1) {
            Ok((text, end)) => Ok((TokenView::String(text), end)),
            Err(e) => Err(e),
        },
        Err(e) => Err(e),
    }
}

/// A token that was found, as the outcome of one step of the tokenizer.
pub open spec fn found(r: Result<(TokenView, int), ParseError>) -> Result<
    Option<(TokenView, int)>,
    ParseError,
> {
    match r {
        Ok(step) => Ok(Some(step)),
        Err(e) => Err(e),
    }
}

/// The token that starts at or after `pos`, and the position after it.
///
/// Blanks before the token are skipped. At the end of the text and at a `;`,
/// where a comment starts, there is no token. A bracket, a quote, a backquote, `@` and `^` are
/// tokens by themselves; `~` is one with an `@` that follows it directly,
/// and one by itself else. A colon starts a keyword and a double quote a
/// string. A symbol character starts the longest run of symbol characters,
/// which is the token that `classify` says. Any other character is an
/// unexpected character at its position.
pub open spec fn next_token(s: Seq<char>, pos: int) -> Result<Option<(TokenView, int)>, ParseError> {
    let at = run_end(s, pos, blank_class());
    if at < 0 || at >= s.len() {
        Ok(None)
    } else if s[at] == ';' {
        Ok(None)
    } else if structural_token(s[at]) is Some {
        Ok(Some((structural_token(s[at])->0, at + 1)))
    } else if s[at] == '~' {
        if at + 1 < s.len() && s[at + 1] == '@' {
            Ok(Some((TokenView::SpliceUnquote, at + 2)))
        } else {
            Ok(Some((TokenView::Unquote, at + 1)))
        }
    } else if s[at] == ':' {
        found(keyword_at(s, at))
    } else if s[at] == '"' {
        found(string_at(s, at))
    } else if is_symbol_char(s[at]) {
        let end = run_end(s, at, symbol_class());
        Ok(Some((classify(s.subrange(at, end)), end)))
    } else {
        Err(ParseError::UnexpectedCharacter { got: s[at], expected: None, pos: at as usize })
    }
}

/// Puts `prefix` before the tokens of a result.
pub open spec fn with_tokens(
    prefix: Seq<TokenView>,
    r: Result<Seq<TokenView>, ParseError>,
) -> Result<Seq<TokenView>, ParseError> {
    match r {
        Ok(rest) => Ok(prefix + rest),
        Err(e) => Err(e),
    }
}

/// Whether a comment starts at or after `pos`, with nothing but blanks
/// before it.
pub open spec fn at_comment(s: Seq<char>, pos: int) -> bool {
    let at = run_end(s, pos, blank_class());
    0 <= at < s.len() && s[at] == ';'
}

/// Where the comment that starts at or after `pos` ends: at the next line
/// feed, or at the end of the text.
pub open spec fn comment_end(s: Seq<char>, pos: int) -> int {
    run_end(s, run_end(s, pos, blank_class()), comment_class())
}

/// The tokens of `s` from `pos` on: one token after the other, or the first
/// error. A comment gives no token and ends with its line: the tokens go on
/// after it. The sequence ends where the text ends.
pub open spec fn tokens_from(s: Seq<char>, pos: int) -> Result<Seq<TokenView>, ParseError>
    decreases s.len() - pos,
{
    match next_token(s, pos) {
        Err(e) => Err(e),
        Ok(None) => if at_comment(s, pos) && pos < comment_end(s, pos) <= s.len() {
            tokens_from(s, comment_end(s, pos))
        } else {
            Ok(Seq::empty())
        },
        Ok(Some((token, next))) => if pos < next <= s.len() {
            with_tokens(seq![token], tokens_from(s, next))
        } else {
            // A token ends after where it was looked for: see
            // `lemma_next_token_advances`.
            Ok(Seq::empty())
        },
    }
}

/// The tokens of a text.
pub open spec fn tokens_of(s: Seq<char>) -> Result<Seq<TokenView>, ParseError> {
    tokens_from(s, 0)
}

/// A run ends where its last character stands, and nowhere else.
pub proof fn lemma_run_end(s: Seq<char>, pos: int, end: int, class: spec_fn(char) -> bool)
    requires
        0 <= pos <= end <= s.len(),
        forall|i: int| pos <= i < end ==> class(#[trigger] s[i]),
        end == s.len() || !class(s[end]),
    ensures
        run_end(s, pos, class) == end,
    decreases end - pos,
{
    if pos < end {
        lemma_run_end(s, pos + 1, end, class);
    }
}

/// A run lies within the text and holds characters of its class only.
pub proof fn lemma_run_end_bounds(s: Seq<char>, pos: int, class: spec_fn(char) -> bool)
    requires
        0 <= pos <= s.len(),
    ensures
        pos <= run_end(s, pos, class) <= s.len(),
        forall|i: int| pos <= i < run_end(s, pos, class) ==> class(#[trigger] s[i]),
        run_end(s, pos, class) == s.len() || !class(s[run_end(s, pos, class)]),
    decreases s.len() - pos,
{
    if pos < s.len() && class(s[pos]) {
        lemma_run_end_bounds(s, pos + 1, class);
    }
}

/// A decoded string ends after where it started, within the text.
pub proof fn lemma_unescape_advances(s: Seq<char>, pos: int)
    requires
        0 <= pos <= s.len(),
    ensures
        unescape(s, pos) matches Ok((_, end)) ==> pos < end <= s.len(),
    decreases s.len() - pos,
{
    if pos < s.len() && s[pos] != '"' {
        if s[pos] == '\\' {
            if pos + 1 < s.len() && is_escape(s[pos + 1]) {
                lemma_unescape_advances(s, pos + 2);
            }
        } else {
            lemma_unescape_advances(s, pos + 1);
        }
    }
}

/// A token ends after where it was looked for, within the text.
pub proof fn lemma_next_token_advances(s: Seq<char>, pos: int)
    requires
        0 <= pos <= s.len(),
    ensures
        next_token(s, pos) matches Ok(Some((_, next))) ==> pos < next <= s.len(),
{
    lemma_run_end_bounds(s, pos, blank_class());
    let at = run_end(s, pos, blank_class());
    if at < s.len() {
        lemma_run_end_bounds(s, at + 1, alphanumeric_class());
        lemma_run_end_bounds(s, at, symbol_class());
        lemma_unescape_advances(s, at + 1);
    }
}

/// A comment ends after where it was looked for, within the text.
pub proof fn lemma_comment_advances(s: Seq<char>, pos: int)
    requires
        0 <= pos <= s.len(),
        at_comment(s, pos),
    ensures
        pos < comment_end(s, pos) <= s.len(),
{
    lemma_run_end_bounds(s, pos, blank_class());
    let at = run_end(s, pos, blank_class());
    assert(comment_class()(s[at]));
    lemma_run_end_bounds(s, at + 1, comment_class());
}

/// The view of what one step of the tokenizer gave, with the position at
/// which it stopped.
pub open spec fn step_view(r: Result<Option<Token>, ParseError>, end: int) -> Result<
    Option<(TokenView, int)>,
    ParseError,
> {
    match r {
        Ok(Some(token)) => Ok(Some((token@, end))),
        Ok(None) => Ok(None),
        Err(e) => Err(e),
    }
}

/// The view of what the tokenizer gave.
pub open spec fn tokenized_view(r: Result<Vec<Token>, ParseError>) -> Result<
    Seq<TokenView>,
    ParseError,
> {
    match r {
        Ok(tokens) => Ok(token_views(tokens@)),
        Err(e) => Err(e),
    }
}

/// The view of a token that was read, with the position at which it ended.
pub open spec fn token_view(r: Result<Token, ParseError>, end: int) -> Result<
    (TokenView, int),
    ParseError,
> {
    match r {
        Ok(token) => Ok((token@, end)),
        Err(e) => Err(e),
    }
}

/// A cursor over the characters of a text.
pub(crate) struct Parser {
    pub input: Vec<char>,
    pub pos: usize,
}

impl Parser {
    /// The cursor stands within the text or at its end.
    pub(crate) open spec fn wf(&self) -> bool {
        self.pos <= self.input.len()
    }

    /// A cursor at the start of `input`.
    pub(crate) fn new(input: &str) -> (parser: Parser)
        ensures
            parser.input@ == input@,
            parser.pos == 0,
    {
        let mut chars: Vec<char> = Vec::new();
        for c in it: input.chars()
            invariant
                it.seq() == input@,
                chars@ == input@.take(it.index()),
        {
            assert(input@.take(it.index() + 1) =~= input@.take(it.index()).push(c));
            chars.push(c);
        }
        assert(input@.take(input@.len() as int) =~= input@);
        Parser { input: chars, pos: 0 }
    }

    /// Whether `c` may occur in a symbol: a letter, a digit, or one of the
    /// punctuation characters of symbols.
    pub(crate) fn is_symbol_character(c: char) -> (r: bool)
        ensures
            r == is_symbol_char(c),
    {
        alphanumeric(c) || match c {
            '!' | '\u{a3}' | '$' | '%' | '&' | '*' | '-' | '_' | '=' | '+' | '<' | '>' | '.'
            | '#' | '|' | '\u{ac}' | '/' | '?' => true,
            _ => false,
        }
    }

    /// The character under the cursor, if the text has not ended.
    fn peek(&self) -> (c: Option<char>)
        requires
            self.wf(),
        ensures
            c == if self.pos < self.input.len() {
                Some(self.input@[self.pos as int])
            } else {
                None
            },
    {
        if self.pos < self.input.len() {
            Some(self.input[self.pos])
        } else {
            None
        }
    }

    /// Moves the cursor over one character.
    fn consume_char(&mut self)
        requires
            old(self).pos < old(self).input.len(),
        ensures
            final(self).input == old(self).input,
            final(self).pos == old(self).pos + 1,
    {
        self.pos += 1;
    }

    /// Moves over `expected` if it is under the cursor. Another character
    /// there is an unexpected character, and the end of the text an
    /// unexpected end of input, both at the cursor, which then stays.
    fn expect_char(&mut self, expected: char) -> (r: Result<(), ParseError>)
        requires
            old(self).wf(),
        ensures
            final(self).input == old(self).input,
            final(self).wf(),
            r == expect_at(old(self).input@, old(self).pos as int, expected),
            final(self).pos == if r is Ok {
                old(self).pos + 1
            } else {
                old(self).pos as int
            },
    {
        match self.peek() {
            Some(c) => {
                if c == expected {
                    self.consume_char();
                    Ok(())
                } else {
                    Err(
                        ParseError::UnexpectedCharacter {
                            got: c,
                            expected: Some(expected),
                            pos: self.pos,
                        },
                    )
                }
            },
            None => Err(ParseError::UnexpectedEndOfInput(self.pos)),
        }
    }

    /// Moves over the blanks under the cursor.
    fn consume_whitespace(&mut self)
        requires
            old(self).wf(),
        ensures
            final(self).input == old(self).input,
            final(self).wf(),
            final(self).pos == run_end(old(self).input@, old(self).pos as int, blank_class()),
    {
        let ghost start = self.pos as int;
        loop
            invariant
                self.input == old(self).input,
                start == old(self).pos,
                start <= self.pos <= self.input.len(),
                forall|i: int| start <= i < self.pos ==> is_blank(#[trigger] self.input@[i]),
            ensures
                self.pos == self.input.len() || !is_blank(self.input@[self.pos as int]),
            decreases self.input.len() - self.pos,
        {
            match self.peek() {
                Some(c) => {
                    if c == ',' || whitespace(c) {
                        self.consume_char();
                    } else {
                        break ;
                    }
                },
                None => {
                    break ;
                },
            }
        }
        proof {
            lemma_run_end(self.input@, start, self.pos as int, blank_class());
        }
    }

    /// Moves over the rest of the line: up to the next line feed, or to the
    /// end of the text.
    fn consume_comment(&mut self)
        requires
            old(self).wf(),
        ensures
            final(self).input == old(self).input,
            final(self).wf(),
            final(self).pos == run_end(old(self).input@, old(self).pos as int, comment_class()),
    {
        let ghost start = self.pos as int;
        loop
            invariant
                self.input == old(self).input,
                start == old(self).pos,
                start <= self.pos <= self.input.len(),
                forall|i: int| start <= i < self.pos ==> (#[trigger] self.input@[i]) != '\n',
            ensures
                self.pos == self.input.len() || self.input@[self.pos as int] == '\n',
            decreases self.input.len() - self.pos,
        {
            match self.peek() {
                Some(c) => {
                    if c == '\n' {
                        break ;
                    }
                    self.consume_char();
                },
                None => {
                    break ;
                },
            }
        }
        proof {
            lemma_run_end(self.input@, start, self.pos as int, comment_class());
        }
    }

    /// Takes the longest run of characters that `predicate` accepts, and
    /// moves over it. `class` is what `predicate` computes.
    fn take_while<F: Fn(char) -> bool>(
        &mut self,
        predicate: F,
        Ghost(class): Ghost<spec_fn(char) -> bool>,
    ) -> (result: String)
        requires
            old(self).wf(),
            forall|c: char| call_requires(predicate, (c,)),
            forall|c: char, r: bool| call_ensures(predicate, (c,), r) ==> r == class(c),
        ensures
            final(self).input == old(self).input,
            final(self).wf(),
            final(self).pos == run_end(old(self).input@, old(self).pos as int, class),
            old(self).pos <= final(self).pos,
            result@ == old(self).input@.subrange(old(self).pos as int, final(self).pos as int),
    {
        let ghost start = self.pos as int;
        let mut result = String::new();
        loop
            invariant
                self.input == old(self).input,
                start == old(self).pos,
                start <= self.pos <= self.input.len(),
                forall|c: char| call_requires(predicate, (c,)),
                forall|c: char, r: bool| call_ensures(predicate, (c,), r) ==> r == class(c),
                forall|i: int| start <= i < self.pos ==> class(#[trigger] self.input@[i]),
                result@ == self.input@.subrange(start, self.pos as int),
            ensures
                self.pos == self.input.len() || !class(self.input@[self.pos as int]),
            decreases self.input.len() - self.pos,
        {
            match self.peek() {
                Some(c) => {
                    if !predicate(c) {
                        break ;
                    }
                    result.push(c);
                    assert(self.input@.subrange(start, self.pos + 1) =~= self.input@.subrange(
                        start,
                        self.pos as int,
                    ).push(c));
                    self.consume_char();
                },
                None => {
                    break ;
                },
            }
        }
        proof {
            lemma_run_end(self.input@, start, self.pos as int, class);
        }
        result
    }

    /// Reads a run of symbol characters and says which token it is.
    fn parse_bare_sequence(&mut self) -> (token: Token)
        requires
            old(self).wf(),
        ensures
            final(self).input == old(self).input,
            final(self).wf(),
            final(self).pos == run_end(old(self).input@, old(self).pos as int, symbol_class()),
            token@ == classify(
                old(self).input@.subrange(old(self).pos as int, final(self).pos as int),
            ),
    {
        let sequence = self.take_while(Parser::is_symbol_character, Ghost(symbol_class()));
        if sequence == String::from_str("nil") {
            Token::Nil
        } else if sequence == String::from_str("true") {
            Token::True
        } else if sequence == String::from_str("false") {
            Token::False
        } else {
            match parse_int(sequence.as_str()) {
                Some(n) => Token::Int(n),
                None => Token::Symbol(sequence),
            }
        }
    }

    /// Reads a keyword: `keyword_at` says which.
    fn parse_keyword(&mut self) -> (r: Result<Token, ParseError>)
        requires
            old(self).wf(),
        ensures
            final(self).input == old(self).input,
            final(self).wf(),
            token_view(r, final(self).pos as int) == keyword_at(
                old(self).input@,
                old(self).pos as int,
            ),
    {
        match self.expect_char(':') {
            Ok(()) => {},
            Err(e) => {
                return Err(e);
            },
        }
        Ok(Token::Keyword(self.take_while(alphanumeric, Ghost(alphanumeric_class()))))
    }

    /// Reads a string: `string_at` says which.
    fn parse_string(&mut self) -> (r: Result<Token, ParseError>)
        requires
            old(self).wf(),
        ensures
            final(self).input == old(self).input,
            final(self).wf(),
            token_view(r, final(self).pos as int) == string_at(
                old(self).input@,
                old(self).pos as int,
            ),
    {
        match self.expect_char('"') {
            Ok(()) => {},
            Err(e) => {
                return Err(e);
            },
        }
        let ghost s = self.input@;
        let ghost start = self.pos as int;
        let mut result = String::new();
        let mut escaping = false;
        loop
            invariant
                self.input == old(self).input,
                s == self.input@,
                start == old(self).pos + 1,
                s[start - 1] == '"',
                start <= self.pos <= self.input.len(),
                escaping ==> start < self.pos && s[self.pos - 1] == '\\',
                unescape(s, start) == with_prefix(
                    result@,
                    unescape(
                        s,
                        if escaping {
                            self.pos - 1
                        } else {
                            self.pos as int
                        },
                    ),
                ),
            ensures
                self.input == old(self).input,
                self.pos <= self.input.len(),
                unescape(s, start) == with_prefix(result@, unescape(s, self.pos as int)),
                self.pos == self.input.len() || s[self.pos as int] == '"',
            decreases self.input.len() - self.pos,
        {
            match self.peek() {
                Some(c) => {
                    let ghost prev = result@;
                    if escaping {
                        if c == '\\' || c == '"' {
                            result.push(c);
                        } else if c == 'n' {
                            result.push('\n');
                        } else {
                            return Err(ParseError::UnknownEscapeSequence(c, self.pos));
                        }
                        proof {
                            let rest = unescape(s, self.pos + 1);
                            assert(with_prefix(
                                prev,
                                with_prefix(seq![unescaped(c)], rest),
                            ) == with_prefix(result@, rest)) by {
                                if rest is Ok {
                                    assert(prev + (seq![unescaped(c)] + rest->Ok_0.0)
                                        =~= result@ + rest->Ok_0.0);
                                }
                            }
                        }
                        escaping = false;
                        self.consume_char();
                    } else if c == '\\' {
                        escaping = true;
                        self.consume_char();
                    } else if c == '"' {
                        break ;
                    } else {
                        result.push(c);
                        proof {
                            let rest = unescape(s, self.pos + 1);
                            assert(with_prefix(prev, with_prefix(seq![c], rest))
                                == with_prefix(result@, rest)) by {
                                if rest is Ok {
                                    assert(prev + (seq![c] + rest->Ok_0.0) =~= result@
                                        + rest->Ok_0.0);
                                }
                            }
                        }
                        self.consume_char();
                    }
                },
                None => {
                    break ;
                },
            }
        }
        match self.expect_char('"') {
            Ok(()) => {},
            Err(e) => {
                return Err(e);
            },
        }
        assert(result@ + Seq::<char>::empty() =~= result@);
        Ok(Token::String(result))
    }

    /// Reads the next token, if there is one: `next_token` says which. Where
    /// there is none the cursor stands after the blanks: at the end of the
    /// text, or at the `;` of a comment.
    fn parse_token(&mut self) -> (r: Result<Option<Token>, ParseError>)
        requires
            old(self).wf(),
        ensures
            final(self).input == old(self).input,
            final(self).wf(),
            step_view(r, final(self).pos as int) == next_token(
                old(self).input@,
                old(self).pos as int,
            ),
            r matches Ok(None) ==> final(self).pos == run_end(
                old(self).input@,
                old(self).pos as int,
                blank_class(),
            ),
    {
        self.consume_whitespace();
        match self.peek() {
            Some(';') => Ok(None),
            Some('(') => {
                self.consume_char();
                Ok(Some(Token::LParen))
            },
            Some(')') => {
                self.consume_char();
                Ok(Some(Token::RParen))
            },
            Some('[') => {
                self.consume_char();
                Ok(Some(Token::LBracket))
            },
            Some(']') => {
                self.consume_char();
                Ok(Some(Token::RBracket))
            },
            Some('{') => {
                self.consume_char();
                Ok(Some(Token::LBrace))
            },
            Some('}') => {
                self.consume_char();
                Ok(Some(Token::RBrace))
            },
            Some('\'') => {
                self.consume_char();
                Ok(Some(Token::Quote))
            },
            Some('`') => {
                self.consume_char();
                Ok(Some(Token::Quasiquote))
            },
            Some('~') => {
                self.consume_char();
                match self.peek() {
                    Some('@') => {
                        self.consume_char();
                        Ok(Some(Token::SpliceUnquote))
                    },
                    Some(_) | None => Ok(Some(Token::Unquote)),
                }
            },
            Some('@') => {
                self.consume_char();
                Ok(Some(Token::Deref))
            },
            Some('^') => {
                self.consume_char();
                Ok(Some(Token::WithMeta))
            },
            Some(':') => match self.parse_keyword() {
                Ok(token) => Ok(Some(token)),
                Err(e) => Err(e),
            },
            Some('"') => match self.parse_string() {
                Ok(token) => Ok(Some(token)),
                Err(e) => Err(e),
            },
            Some(c) => {
                if Parser::is_symbol_character(c) {
                    Ok(Some(self.parse_bare_sequence()))
                } else {
                    Err(ParseError::UnexpectedCharacter { got: c, expected: None, pos: self.pos })
                }
            },
            None => Ok(None),
        }
    }

    /// Reads tokens up to the end of the text, passing over comments.
    fn tokenize(&mut self) -> (r: Result<Vec<Token>, ParseError>)
        requires
            old(self).wf(),
        ensures
            tokenized_view(r) == tokens_from(old(self).input@, old(self).pos as int),
    {
        let ghost s = self.input@;
        let ghost start = self.pos as int;
        let mut tokens: Vec<Token> = Vec::new();
        loop
            invariant
                self.input@ == s,
                s == old(self).input@,
                start == old(self).pos,
                self.wf(),
                tokens_from(s, start) == with_tokens(
                    token_views(tokens@),
                    tokens_from(s, self.pos as int),
                ),
            decreases s.len() - self.pos,
        {
            let ghost before = self.pos as int;
            let ghost seen = token_views(tokens@);
            proof {
                lemma_next_token_advances(s, before);
            }
            match self.parse_token() {
                Err(e) => {
                    return Err(e);
                },
                Ok(None) => match self.peek() {
                    Some(_) => {
                        proof {
                            lemma_comment_advances(s, before);
                        }
                        self.consume_comment();
                    },
                    None => {
                        assert(seen + Seq::<TokenView>::empty() =~= seen);
                        return Ok(tokens);
                    },
                },
                Ok(Some(token)) => {
                    tokens.push(token);
                    proof {
                        let rest = tokens_from(s, self.pos as int);
                        assert(token_views(tokens@) =~= seen.push(token@));
                        if rest is Ok {
                            assert(seen + (seq![token@] + rest->Ok_0) =~= seen.push(token@)
                                + rest->Ok_0);
                        }
                    }
                },
            }
        }
    }
}

/// Splits a text into its tokens, or says why it cannot be split.
///
/// Blanks, which are white space and commas, separate tokens and are
/// skipped. A `;` outside a string starts a comment, which runs to the end
/// of its line and gives no token. An error carries the position of the
/// character at which it was found.
pub fn tokenize(input: &str) -> (r: Result<Vec<Token>, ParseError>)
    ensures
        tokenized_view(r) == tokens_of(input@),
{
    let mut parser = Parser::new(input);
    parser.tokenize()
}

} // verus!
