//! Parsing of the numbers the user types (the maximum constraint length and the page length).

use vstd::prelude::*;
use crate::seq_util::fits_i32;
use crate::sudoku::{decimal_text, digit_char};

verus! {

pub open spec fn is_digit(c: char) -> bool {
    '0' <= c <= '9'
}

pub open spec fn digit_value(c: char) -> int {
    c as int - '0' as int
}

/// The number written by a sequence of decimal digits.
pub open spec fn digits_value(s: Seq<char>) -> int
    decreases s.len(),
{
    if s.len() == 0 {
        0
    } else {
        digits_value(s.drop_last()) * 10 + digit_value(s.last())
    }
}

/// Every character is a decimal digit.
pub open spec fn all_digits(s: Seq<char>) -> bool {
    forall|i: int| 0 <= i < s.len() ==> is_digit(#[trigger] s[i])
}

/// What `str::parse::<i32>` yields: an optional `+` or `-` followed by one or
/// more decimal digits, whose value fits in an `i32`; otherwise nothing.
pub open spec fn spec_parse_i32(s: Seq<char>) -> Option<int> {
    let signed = s.len() > 0 && (s[0] == '-' || s[0] == '+');
    let body = if signed { s.skip(1) } else { s };
    let negative = s.len() > 0 && s[0] == '-';
    if body.len() == 0 || !all_digits(body) {
        None
    } else {
        let v = if negative { -digits_value(body) } else { digits_value(body) };
        if fits_i32(v) { Some(v) } else { None }
    }
}

/// A user input is accepted when it parses as an `i32` that is at least 1.
pub open spec fn spec_parse_numeric_input(s: Seq<char>) -> Option<int> {
    match spec_parse_i32(s) {
        Some(v) => if v < 1 { None } else { Some(v) },
        None => None,
    }
}

proof fn lemma_digits_value_push(s: Seq<char>, c: char)
    ensures
        digits_value(s.push(c)) == digits_value(s) * 10 + digit_value(c),
{
    assert(s.push(c).drop_last() =~= s);
}

proof fn lemma_digits_value_nonneg(s: Seq<char>)
    requires
        forall|i: int| 0 <= i < s.len() ==> is_digit(#[trigger] s[i]),
    ensures
        digits_value(s) >= 0,
    decreases s.len(),
{
    if s.len() > 0 {
        assert(forall|i: int| 0 <= i < s.drop_last().len() ==> is_digit(#[trigger] s.drop_last()[i])
            ) by {
            assert forall|i: int| 0 <= i < s.drop_last().len() implies is_digit(
                #[trigger] s.drop_last()[i],
            ) by {
                assert(s.drop_last()[i] == s[i]);
            }
        }
        lemma_digits_value_nonneg(s.drop_last());
    }
}

/// Parses numeric inputs given by the user. Inputs are for the max_length filter and page length.
pub fn parse_numeric_input(input: &str) -> (r: Option<i32>)
    ensures
        match r {
            Some(v) => spec_parse_numeric_input(input@) == Some(v as int),
            None => spec_parse_numeric_input(input@) is None,
        },
{
    let n = input.unicode_len();
    let ghost s = input@;
    if n == 0 {
        return None;
    }
    let first = input.get_char(0);
    let signed = first == '-' || first == '+';
    let negative = first == '-';
    let start: usize = if signed { 1 } else { 0 };
    let ghost body = if signed { s.skip(1) } else { s };
    assert(body =~= s.subrange(start as int, n as int));
    assert(signed == (s.len() > 0 && (s[0] == '-' || s[0] == '+')));
    assert(negative == (s.len() > 0 && s[0] == '-'));
    if start == n {
        assert(body.len() == 0);
        return None;
    }
    // Digits of the body; once the value exceeds 2^31 it can no longer fit.
    let mut value: i64 = 0;
    let mut overflow = false;
    let mut i: usize = start;
    while i < n
        invariant
            s == input@,
            n == s.len(),
            start <= i <= n,
            body == s.subrange(start as int, n as int),
            body == (if s.len() > 0 && (s[0] == '-' || s[0] == '+') { s.skip(1) } else { s }),
            negative == (s.len() > 0 && s[0] == '-'),
            forall|k: int| 0 <= k < i - start ==> is_digit(#[trigger] body[k]),
            !overflow ==> value == digits_value(body.subrange(0, i - start)),
            !overflow ==> 0 <= value <= 0x8000_0000,
            overflow ==> digits_value(body.subrange(0, i - start)) > 0x8000_0000,
        decreases n - i,
    {
        let c = input.get_char(i);
        assert(c == body[i - start]);
        if !('0' <= c && c <= '9') {
            assert(!is_digit(body[i - start]));
            return None;
        }
        let d = (c as u32 - '0' as u32) as i64;
        proof {
            assert(body.subrange(0, i - start + 1) =~= body.subrange(0, i - start).push(c));
            lemma_digits_value_push(body.subrange(0, i - start), c);
            lemma_digits_value_nonneg(body.subrange(0, i - start));
        }
        if !overflow {
            value = value * 10 + d;
            if value > 0x8000_0000 {
                overflow = true;
            }
        }
        i += 1;
    }
    assert(body.subrange(0, n - start) =~= body);
    proof {
        lemma_digits_value_nonneg(body);
    }
    if overflow {
        return None;
    }
    let v: i64 = if negative { -value } else { value };
    if v < i32::MIN as i64 || v > i32::MAX as i64 {
        return None;
    }
    let parsed = v as i32;
    if parsed < 1 {
        return None;
    }
    Some(parsed)
}

/// A natural number written in decimal reads back as itself.
pub proof fn lemma_decimal_text_digits(n: nat)
    ensures
        decimal_text(n).len() > 0,
        all_digits(decimal_text(n)),
        digits_value(decimal_text(n)) == n,
    decreases n,
{
    let d = (n % 10) as int;
    assert(digit_value(digit_char(d)) == d && is_digit(digit_char(d)));
    if n >= 10 {
        lemma_decimal_text_digits(n / 10);
        let prefix = decimal_text(n / 10);
        lemma_digits_value_push(prefix, digit_char(d));
        assert forall|i: int| 0 <= i < decimal_text(n).len() implies is_digit(
            #[trigger] decimal_text(n)[i],
        ) by {
            if i < prefix.len() {
                assert(decimal_text(n)[i] == prefix[i]);
            }
        }
    } else {
        lemma_digits_value_push(Seq::<char>::empty(), digit_char(d));
        assert(seq![digit_char(d)] =~= Seq::<char>::empty().push(digit_char(d)));
    }
}

/// The decimal text of a number 1..=i32::MAX is read as that number, and
/// that of 0 is not accepted.
pub proof fn lemma_parse_decimal_text(n: nat)
    ensures
        spec_parse_numeric_input(decimal_text(n)) == if 1 <= n <= i32::MAX {
            Some(n as int)
        } else {
            None::<int>
        },
{
    lemma_decimal_text_digits(n);
    let s = decimal_text(n);
    assert(is_digit(s[0]));
}

} // verus!
