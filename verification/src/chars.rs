//! Character classes of the tokenizer.
//!
//! Within ASCII each class is spelled out. Beyond ASCII the alphanumeric and
//! whitespace classes follow the Unicode tables of the standard library,
//! which the contracts refer to by name only.

use vstd::prelude::*;

verus! {

/// What `char::is_alphanumeric` answers for a character. The contracts use
/// it only for characters beyond ASCII.
pub uninterp spec fn unicode_alphanumeric(c: char) -> bool;

/// What `char::is_whitespace` answers for a character. The contracts use it
/// only for characters beyond ASCII.
pub uninterp spec fn unicode_whitespace(c: char) -> bool;

/// The characters up to U+007F.
pub open spec fn is_ascii(c: char) -> bool {
    c <= '\x7f'
}

/// The ten decimal digits.
pub open spec fn is_digit(c: char) -> bool {
    '0' <= c <= '9'
}

/// The letters `a` to `z` and `A` to `Z`.
pub open spec fn is_ascii_letter(c: char) -> bool {
    ('a' <= c <= 'z') || ('A' <= c <= 'Z')
}

/// Space, and the control characters from tab to carriage return.
pub open spec fn is_ascii_whitespace(c: char) -> bool {
    c == ' ' || ('\x09' <= c <= '\x0d')
}

/// Letters and digits: the ASCII ones, and beyond ASCII whatever Unicode
/// classifies as alphabetic or numeric.
pub open spec fn is_alphanumeric(c: char) -> bool {
    if is_ascii(c) {
        is_digit(c) || is_ascii_letter(c)
    } else {
        unicode_alphanumeric(c)
    }
}

/// White space: the ASCII kind, and beyond ASCII whatever Unicode gives the
/// `White_Space` property.
pub open spec fn is_whitespace(c: char) -> bool {
    if is_ascii(c) {
        is_ascii_whitespace(c)
    } else {
        unicode_whitespace(c)
    }
}

/// What the tokenizer skips between tokens: white space and commas.
pub open spec fn is_blank(c: char) -> bool {
    c == ',' || is_whitespace(c)
}

/// The punctuation that may occur in a symbol, beside letters and digits.
pub open spec fn is_symbol_punctuation(c: char) -> bool {
    c == '!' || c == '\u{a3}' || c == '$' || c == '%' || c == '&' || c == '*' || c == '-' || c
        == '_' || c == '=' || c == '+' || c == '<' || c == '>' || c == '.' || c == '#' || c == '|'
        || c == '\u{ac}' || c == '/' || c == '?'
}

/// The characters a symbol is made of.
pub open spec fn is_symbol_char(c: char) -> bool {
    is_alphanumeric(c) || is_symbol_punctuation(c)
}

/// The class of blanks as a predicate, for the functions that take a class
/// as an argument.
pub open spec fn blank_class() -> spec_fn(char) -> bool {
    |c: char| is_blank(c)
}

/// The class of letters and digits as a predicate.
pub open spec fn alphanumeric_class() -> spec_fn(char) -> bool {
    |c: char| is_alphanumeric(c)
}

/// The class of symbol characters as a predicate.
pub open spec fn symbol_class() -> spec_fn(char) -> bool {
    |c: char| is_symbol_char(c)
}

/// The characters of a comment, after its `;`: all but the line feed.
pub open spec fn comment_class() -> spec_fn(char) -> bool {
    |c: char| c != '\n'
}

/// Calls `char::is_alphanumeric`. Trusted: for an ASCII character the answer
/// is whether it is a letter or a digit; for any other character it is the
/// answer of the Unicode tables, which is given a name and not spelled out.
#[verifier::external_body]
pub(crate) fn alphanumeric(c: char) -> (r: bool)
    ensures
        r == if is_ascii(c) {
            is_digit(c) || is_ascii_letter(c)
        } else {
            unicode_alphanumeric(c)
        },
{
    c.is_alphanumeric()
}

/// Calls `char::is_whitespace`. Trusted: for an ASCII character the answer is
/// whether it is a space or one of the control characters from tab to
/// carriage return; for any other character it is the answer of the Unicode
/// tables, which is given a name and not spelled out.
#[verifier::external_body]
pub(crate) fn whitespace(c: char) -> (r: bool)
    ensures
        r == if is_ascii(c) {
            is_ascii_whitespace(c)
        } else {
            unicode_whitespace(c)
        },
{
    c.is_whitespace()
}

} // verus!
