//! Decimal numerals: reading a 32-bit signed integer from text and writing
//! an integer as text.

use crate::chars::is_digit;
use vstd::prelude::*;

verus! {

/// `String::push`. Trusted: the string afterwards is the string before with
/// `ch` appended.
pub assume_specification[ std::string::String::push ](s: &mut std::string::String, ch: char)
    ensures
        final(s)@ == old(s)@.push(ch),
;

/// The number that a decimal digit stands for.
pub open spec fn digit_value(c: char) -> int {
    c as int - '0' as int
}

/// The decimal digit for a number below ten.
pub open spec fn digit_char(d: int) -> char {
    ('0' as int + d) as char
}

/// Every character of `s` is a decimal digit.
pub open spec fn all_digits(s: Seq<char>) -> bool {
    forall|i: int| 0 <= i < s.len() ==> is_digit(#[trigger] s[i])
}

/// The number that a run of decimal digits denotes; leading zeros count for
/// nothing.
pub open spec fn digits_value(s: Seq<char>) -> nat
    decreases s.len(),
{
    if s.len() == 0 {
        0
    } else {
        (digits_value(s.drop_last()) * 10 + digit_value(s.last())) as nat
    }
}

/// A plus or a minus sign.
pub open spec fn is_sign(c: char) -> bool {
    c == '-' || c == '+'
}

/// The integer that `s` denotes: an optional sign, then one digit or more and
/// nothing else. Any other text denotes no integer.
pub open spec fn parse_decimal(s: Seq<char>) -> Option<int> {
    if s.len() > 0 && is_sign(s[0]) {
        let digits = s.skip(1);
        if digits.len() > 0 && all_digits(digits) {
            Some(
                if s[0] == '-' {
                    -(digits_value(digits) as int)
                } else {
                    digits_value(digits) as int
                },
            )
        } else {
            None
        }
    } else if s.len() > 0 && all_digits(s) {
        Some(digits_value(s) as int)
    } else {
        None
    }
}

/// The 32-bit signed integer that `s` denotes, if it denotes an integer and
/// that integer fits.
pub open spec fn parse_i32(s: Seq<char>) -> Option<i32> {
    match parse_decimal(s) {
        Some(n) => if i32::MIN <= n <= i32::MAX {
            Some(n as i32)
        } else {
            None
        },
        None => None,
    }
}

/// The digits of a natural number, most significant first, without leading
/// zeros; zero is the single digit `0`.
pub open spec fn digits_of(n: nat) -> Seq<char>
    decreases n,
{
    if n < 10 {
        seq![digit_char(n as int)]
    } else {
        digits_of(n / 10).push(digit_char((n % 10) as int))
    }
}

/// An integer in decimal: its digits, after a minus sign if it is negative.
pub open spec fn decimal(n: int) -> Seq<char> {
    if n < 0 {
        seq!['-'] + digits_of((-n) as nat)
    } else {
        digits_of(n as nat)
    }
}

/// A run of digits with one digit more is worth at least as much.
pub proof fn lemma_digits_value_grows(s: Seq<char>, c: char)
    requires
        is_digit(c),
    ensures
        digits_value(s.push(c)) == digits_value(s) * 10 + digit_value(c),
        digits_value(s.push(c)) >= digits_value(s),
{
    assert(s.push(c).drop_last() =~= s);
}

/// The digits of a number are digits, at least one, and denote the number.
pub proof fn lemma_digits_of(n: nat)
    ensures
        digits_of(n).len() > 0,
        all_digits(digits_of(n)),
        digits_value(digits_of(n)) == n,
    decreases n,
{
    if n < 10 {
        let s = seq![digit_char(n as int)];
        assert(s.drop_last() =~= Seq::<char>::empty());
        assert(digits_value(s.drop_last()) == 0);
        assert(digit_value(s.last()) == n);
    } else {
        lemma_digits_of(n / 10);
        let c = digit_char((n % 10) as int);
        lemma_digits_value_grows(digits_of(n / 10), c);
    }
}

/// The digits of a number that is not zero do not start with a zero.
pub proof fn lemma_no_leading_zero(n: nat)
    requires
        n > 0,
    ensures
        digits_of(n)[0] != '0',
    decreases n,
{
    if n >= 10 {
        lemma_no_leading_zero(n / 10);
        lemma_digits_of(n / 10);
    }
}

/// Reading the decimal form of an integer gives the integer back.
pub proof fn lemma_parse_decimal(n: int)
    ensures
        parse_decimal(decimal(n)) == Some(n),
{
    if n < 0 {
        let d = digits_of((-n) as nat);
        lemma_digits_of((-n) as nat);
        assert(decimal(n).skip(1) =~= d);
    } else {
        lemma_digits_of(n as nat);
    }
}

/// Reading the decimal form of a 32-bit integer gives the integer back.
pub proof fn lemma_parse_i32(n: i32)
    ensures
        parse_i32(decimal(n as int)) == Some(n),
{
    lemma_parse_decimal(n as int);
}

/// The decimal digit for `d`.
fn digit(d: u64) -> (c: char)
    requires
        d < 10,
    ensures
        c == digit_char(d as int),
        is_digit(c),
{
    if d == 0 {
        '0'
    } else if d == 1 {
        '1'
    } else if d == 2 {
        '2'
    } else if d == 3 {
        '3'
    } else if d == 4 {
        '4'
    } else if d == 5 {
        '5'
    } else if d == 6 {
        '6'
    } else if d == 7 {
        '7'
    } else if d == 8 {
        '8'
    } else {
        '9'
    }
}

/// Appends the digits of `n` to `out`.
pub fn push_digits(out: &mut String, n: u64)
    ensures
        final(out)@ == old(out)@ + digits_of(n as nat),
    decreases n,
{
    if n >= 10 {
        push_digits(out, n / 10);
    }
    out.push(digit(n % 10));
    proof {
        if n >= 10 {
            assert(old(out)@ + digits_of(n as nat) =~= (old(out)@ + digits_of(
                (n / 10) as nat,
            )).push(digit_char((n % 10) as int)));
        } else {
            assert(old(out)@ + digits_of(n as nat) =~= old(out)@.push(digit_char(n as int)));
        }
    }
}

/// Appends `n` in decimal to `out`.
pub fn push_decimal(out: &mut String, n: i32)
    ensures
        final(out)@ == old(out)@ + decimal(n as int),
{
    if n < 0 {
        out.push('-');
        push_digits(out, (-(n as i64)) as u64);
        assert(old(out)@ + decimal(n as int) =~= old(out)@.push('-') + digits_of((-n) as nat));
    } else {
        push_digits(out, n as u64);
    }
}

/// Reads a 32-bit signed integer in decimal: an optional sign, then digits
/// only. Text that is no such numeral, or whose number does not fit, gives
/// `None`.
pub fn parse_int(text: &str) -> (r: Option<i32>)
    ensures
        r == parse_i32(text@),
{
    let ghost s = text@;
    let mut first = true;
    let mut signed = false;
    let mut negative = false;
    let mut digits = true;
    let mut any = false;
    let mut over = false;
    let mut acc: u64 = 0;
    for c in it: text.chars()
        invariant
            it.seq() == s,
            first == (it.index() == 0),
            signed == (it.index() > 0 && is_sign(s[0])),
            signed ==> negative == (s[0] == '-'),
            any == (it.index() > if signed { 1int } else { 0 }),
            !signed ==> !negative,
            digits == all_digits(s.subrange(if signed { 1int } else { 0 }, it.index())),
            digits && !over ==> acc == digits_value(
                s.subrange(if signed { 1int } else { 0 }, it.index()),
            ),
            digits && over ==> digits_value(
                s.subrange(if signed { 1int } else { 0 }, it.index()),
            ) > 0x8000_0000,
            acc <= 0x8000_0000,
    {
        let ghost i = it.index();
        if first && (c == '-' || c == '+') {
            signed = true;
            negative = c == '-';
            assert(s.subrange(1, 1) =~= Seq::<char>::empty());
        } else {
            let ghost from = if signed { 1int } else { 0 };
            let ghost before = s.subrange(from, i);
            assert(s.subrange(from, i + 1) =~= before.push(c));
            if c >= '0' && c <= '9' {
                proof {
                    lemma_digits_value_grows(before, c);
                    if digits {
                        assert forall|j: int| 0 <= j < before.push(c).len() implies is_digit(
                            #[trigger] before.push(c)[j],
                        ) by {
                            if j < before.len() {
                                assert(before.push(c)[j] == before[j]);
                            }
                        }
                    } else {
                        let j = choose|j: int| 0 <= j < before.len() && !is_digit(before[j]);
                        assert(before.push(c)[j] == before[j]);
                    }
                }
                if !over {
                    let d: u64 = (c as u32 - '0' as u32) as u64;
                    let next: u64 = acc * 10 + d;
                    if next > 0x8000_0000 {
                        over = true;
                    } else {
                        acc = next;
                    }
                }
            } else {
                proof {
                    assert(before.push(c)[before.len() as int] == c);
                }
                digits = false;
            }
            any = true;
        }
        first = false;
    }
    proof {
        assert(s.subrange(0, s.len() as int) =~= s);
        if s.len() > 0 {
            assert(s.subrange(1, s.len() as int) =~= s.skip(1));
        }
    }
    if !any || !digits || over {
        None
    } else if negative {
        if acc == 0x8000_0000 {
            Some(i32::MIN)
        } else {
            Some(-(acc as i32))
        }
    } else if acc > 0x7fff_ffff {
        None
    } else {
        Some(acc as i32)
    }
}

} // verus!
