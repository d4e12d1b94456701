//! Text helpers shared by the parsers and the formatters: conversion between
//! strings and character vectors, case folding, decimal numbers and lines.

use crate::seqs::{
    copy_range, cut, ranges_within, same_ranges, same_seq, split, split_indices, split_ranges,
};
use vstd::prelude::*;
use vstd::string::StringExecFns;

verus! {

/// The characters of `s`, in order.
pub fn chars_of(s: &str) -> (out: Vec<char>)
    ensures
        out@ == s@,
{
    let mut out: Vec<char> = Vec::new();
    for c in it: s.chars()
        invariant
            out@ == it.seq().take(it.index()),
            it.seq() == s@,
    {
        out.push(c);
    }
    out
}

/// Appends one character to `s`; this is `String::push`, which adds the
/// character at the end and leaves the rest as it was.
#[verifier::external_body]
fn push_char(s: &mut String, c: char)
    ensures
        final(s)@ == old(s)@.push(c),
{
    s.push(c)
}

/// The string made of the characters of `chars`, in order.
pub fn string_of(chars: &[char]) -> (out: String)
    ensures
        out@ == chars@,
{
    let mut out = String::new();
    let mut i: usize = 0;
    while i < chars.len()
        invariant
            i <= chars.len(),
            out@ == chars@.take(i as int),
        decreases chars.len() - i,
    {
        push_char(&mut out, chars[i]);
        i += 1;
    }
    out
}

/// The string made of `chars[from..to]`.
pub fn string_of_range(chars: &[char], from: usize, to: usize) -> (out: String)
    requires
        from <= to <= chars@.len(),
    ensures
        out@ == chars@.subrange(from as int, to as int),
{
    let piece = copy_range(chars, from, to);
    string_of(piece.as_slice())
}

/// Whether `a` spells the text `b`.
pub fn same_text(a: &[char], b: &str) -> (r: bool)
    ensures
        r == (a@ == b@),
{
    let other = chars_of(b);
    same_seq(a, other.as_slice())
}

/// What `str::to_lowercase` returns for a string with the characters `s`.
pub uninterp spec fn lowercased(s: Seq<char>) -> Seq<char>;

/// The lower-case form of `s`; this is `str::to_lowercase`, which maps the
/// string to its lower-case equivalent by the Unicode tables of the standard
/// library. The contract only names the result.
#[verifier::external_body]
pub(crate) fn lowercase_of(s: &str) -> (out: String)
    ensures
        out@ == lowercased(s@),
{
    s.to_lowercase()
}

/// `s` holds a blank.
pub open spec fn has_blank(s: Seq<char>) -> bool {
    s.contains(' ')
}

/// Whether `s` holds a blank.
pub fn contains_blank(s: &str) -> (r: bool)
    ensures
        r == has_blank(s@),
{
    let chars = chars_of(s);
    let mut i: usize = 0;
    while i < chars.len()
        invariant
            i <= chars.len(),
            chars@ == s@,
            forall|j: int| 0 <= j < i ==> chars@[j] != ' ',
        decreases chars.len() - i,
    {
        if chars[i] == ' ' {
            assert(s@[i as int] == ' ');
            return true;
        }
        i += 1;
    }
    false
}

/// The decimal digit for `d`.
pub open spec fn digit_of(d: int) -> char {
    if d == 0 {
        '0'
    } else if d == 1 {
        '1'
    } else if d == 2 {
        '2'
    } else if d == 3 {
        '3'
    } else if d == 4 {
        '4'
    } else if d == 5 {
        '5'
    } else if d == 6 {
        '6'
    } else if d == 7 {
        '7'
    } else if d == 8 {
        '8'
    } else {
        '9'
    }
}

/// The decimal numeral of `n`, without leading zeros.
pub open spec fn decimal(n: nat) -> Seq<char>
    decreases n,
{
    if n < 10 {
        seq![digit_of(n as int)]
    } else {
        decimal(n / 10).push(digit_of((n % 10) as int))
    }
}

/// The decimal digit for `d`.
fn digit_char(d: u64) -> (c: char)
    requires
        d < 10,
    ensures
        c == digit_of(d as int),
{
    if d == 0 {
        '0'
    } else if d == 1 {
        '1'
    } else if d == 2 {
        '2'
    } else if d == 3 {
        '3'
    } else if d == 4 {
        '4'
    } else if d == 5 {
        '5'
    } else if d == 6 {
        '6'
    } else if d == 7 {
        '7'
    } else if d == 8 {
        '8'
    } else {
        '9'
    }
}

/// The decimal numeral of `n`.
pub fn decimal_chars(n: u64) -> (out: Vec<char>)
    ensures
        out@ == decimal(n as nat),
    decreases n,
{
    if n < 10 {
        let mut out: Vec<char> = Vec::new();
        out.push(digit_char(n));
        out
    } else {
        let mut out = decimal_chars(n / 10);
        out.push(digit_char(n % 10));
        out
    }
}

/// The decimal numeral of `n`, as a string.
pub fn decimal_string(n: u64) -> (out: String)
    ensures
        out@ == decimal(n as nat),
{
    let chars = decimal_chars(n);
    string_of(chars.as_slice())
}

/// The decimal numeral of `n`, with a minus sign where it is negative.
pub open spec fn signed_decimal(n: int) -> Seq<char> {
    if n < 0 {
        "-"@ + decimal((-n) as nat)
    } else {
        decimal(n as nat)
    }
}

/// The decimal numeral of `n`, as a string.
pub fn signed_decimal_string(n: i64) -> (out: String)
    ensures
        out@ == signed_decimal(n as int),
{
    if n >= 0 {
        decimal_string(n as u64)
    } else {
        let magnitude: u64 = (-(n + 1)) as u64 + 1;
        let digits = decimal_string(magnitude);
        let mut out = "-".to_owned();
        out.append(digits.as_str());
        out
    }
}

/// `c` is a decimal digit.
pub open spec fn is_digit(c: char) -> bool {
    '0' <= c <= '9'
}

/// The value of the decimal digit `c`.
pub open spec fn digit_value(c: char) -> nat {
    (c as int - '0' as int) as nat
}

/// The number that the digits of `s` spell.
pub open spec fn decimal_value(s: Seq<char>) -> nat
    decreases s.len(),
{
    if s.len() == 0 {
        0
    } else {
        decimal_value(s.drop_last()) * 10 + digit_value(s.last())
    }
}

/// Every character of `s` is a decimal digit.
pub open spec fn all_digits(s: Seq<char>) -> bool {
    forall|i: int| 0 <= i < s.len() ==> is_digit(#[trigger] s[i])
}

/// The unsigned number that `s` spells: an optional `+`, then one or more
/// decimal digits, with a value of at most `max`.
pub open spec fn parse_unsigned(s: Seq<char>, max: nat) -> Option<nat> {
    let digits = if s.len() > 0 && s[0] == '+' {
        s.subrange(1, s.len() as int)
    } else {
        s
    };
    if digits.len() > 0 && all_digits(digits) && decimal_value(digits) <= max {
        Some(decimal_value(digits))
    } else {
        None
    }
}

/// A longer run of digits spells no smaller a number.
proof fn lemma_decimal_value_grows(s: Seq<char>, k: int)
    requires
        0 <= k <= s.len(),
    ensures
        decimal_value(s.take(k)) <= decimal_value(s),
    decreases s.len() - k,
{
    if k < s.len() {
        lemma_decimal_value_grows(s, k + 1);
        assert(s.take(k + 1).drop_last() =~= s.take(k));
    } else {
        assert(s.take(k) =~= s);
    }
}

/// Reads an unsigned decimal number of at most `usize::MAX`.
pub fn parse_usize(s: &[char]) -> (r: Option<usize>)
    ensures
        r.is_some() == parse_unsigned(s@, usize::MAX as nat).is_some(),
        r matches Some(n) ==> parse_unsigned(s@, usize::MAX as nat) == Some(n as nat),
{
    let n = s.len();
    let start: usize = if n > 0 && s[0] == '+' {
        1
    } else {
        0
    };
    let ghost digits = s@.subrange(start as int, n as int);
    let ghost max = usize::MAX as nat;
    assert(s@.subrange(0, n as int) =~= s@);
    assert(parse_unsigned(s@, max) == if digits.len() > 0 && all_digits(digits) && decimal_value(
        digits,
    ) <= max {
        Some(decimal_value(digits))
    } else {
        None
    });
    if start == n {
        return None;
    }
    let mut value: usize = 0;
    let mut i: usize = start;
    while i < n
        invariant
            start <= i <= n == s@.len(),
            digits == s@.subrange(start as int, n as int),
            max == usize::MAX as nat,
            parse_unsigned(s@, max) == if digits.len() > 0 && all_digits(digits)
                && decimal_value(digits) <= max {
                Some(decimal_value(digits))
            } else {
                None
            },
            all_digits(digits.take(i - start)),
            value == decimal_value(digits.take(i - start)),
        decreases n - i,
    {
        let c = s[i];
        let ghost next = digits.take(i + 1 - start);
        assert(next.drop_last() =~= digits.take(i - start));
        assert(next.last() == c);
        if !('0' <= c && c <= '9') {
            assert(!is_digit(digits[i - start]));
            return None;
        }
        let d: usize = (c as u32 - '0' as u32) as usize;
        assert(d == digit_value(c));
        proof {
            lemma_decimal_value_grows(digits, i + 1 - start);
        }
        if value > (usize::MAX - d) / 10 {
            assert(decimal_value(next) > usize::MAX) by (nonlinear_arith)
                requires
                    decimal_value(next) == value * 10 + d,
                    value > (usize::MAX - d) / 10,
                    d < 10,
            ;
            return None;
        }
        assert(value * 10 + d <= usize::MAX) by (nonlinear_arith)
            requires
                value <= (usize::MAX - d) / 10,
                d < 10,
        ;
        value = value * 10 + d;
        assert forall|j: int| 0 <= j < next.len() implies is_digit(#[trigger] next[j]) by {
            if j < i - start {
                assert(next[j] == digits.take(i - start)[j]);
            }
        }
        i += 1;
    }
    assert(digits.take(n - start) =~= digits);
    Some(value)
}

/// What `String::from_utf8_lossy` returns for the bytes `bytes`.
pub uninterp spec fn utf8_lossy(bytes: Seq<u8>) -> Seq<char>;

/// The text of `bytes`; this is `String::from_utf8_lossy`, which reads the
/// bytes as UTF-8 and puts U+FFFD in place of what is no UTF-8. The contract
/// only names the result.
#[verifier::external_body]
pub(crate) fn lossy_text(bytes: &[u8]) -> (out: String)
    ensures
        out@ == utf8_lossy(bytes@),
{
    String::from_utf8_lossy(bytes).into_owned()
}

/// `line` without one carriage return at its end.
pub open spec fn strip_cr(line: Seq<char>) -> Seq<char> {
    if line.len() > 0 && line.last() == '\r' {
        line.drop_last()
    } else {
        line
    }
}

/// The lines of `s`: it is cut at each line feed; a line that a line feed
/// ended loses one carriage return before it; what follows the last line
/// feed is a line of its own unless it is empty.
pub open spec fn lines_of(s: Seq<char>) -> Seq<Seq<char>> {
    let raw = split(s, "\n"@);
    let n = if raw.len() > 0 && raw.last().len() == 0 {
        raw.len() - 1
    } else {
        raw.len() as int
    };
    Seq::new(
        n as nat,
        |i: int|
            if i < raw.len() - 1 {
                strip_cr(raw[i])
            } else {
                raw[i]
            },
    )
}

/// The ranges of the lines of `s`.
pub fn line_ranges(s: &[char]) -> (out: Vec<(usize, usize)>)
    ensures
        ranges_within(out@, s@.len() as int),
        cut(s@, out@) == lines_of(s@),
{
    let feed = chars_of("\n");
    let ranges = split_indices(s, feed.as_slice());
    let ghost raw = split(s@, "\n"@);
    let n = ranges.len();
    let mut out: Vec<(usize, usize)> = Vec::new();
    let mut k: usize = 0;
    while k + 1 < n
        invariant
            k + 1 <= n == ranges@.len(),
            raw == split(s@, "\n"@),
            same_ranges(ranges@, split_ranges(s@, "\n"@)),
            ranges_within(ranges@, s@.len() as int),
            ranges_within(out@, s@.len() as int),
            out@.len() == k,
            forall|j: int|
                0 <= j < k ==> s@.subrange((#[trigger] out@[j]).0 as int, out@[j].1 as int)
                    == strip_cr(raw[j]),
        decreases n - k,
    {
        let (a, b) = ranges[k];
        assert(raw[k as int] == s@.subrange(a as int, b as int));
        if a < b && s[b - 1] == '\r' {
            assert(s@.subrange(a as int, b as int).drop_last() =~= s@.subrange(a as int, b - 1));
            out.push((a, b - 1));
        } else {
            out.push((a, b));
        }
        k += 1;
    }
    let (a, b) = ranges[n - 1];
    assert(raw[n - 1] == s@.subrange(a as int, b as int));
    if a < b {
        out.push((a, b));
    }
    assert(cut(s@, out@) =~= lines_of(s@));
    out
}

/// The lines of `text`, each as a string of its own.
pub fn lines(text: &str) -> (out: Vec<String>)
    ensures
        out.deep_view() == lines_of(text@),
{
    let chars = chars_of(text);
    let ranges = line_ranges(chars.as_slice());
    let mut out: Vec<String> = Vec::new();
    let mut i: usize = 0;
    while i < ranges.len()
        invariant
            i <= ranges@.len(),
            chars@ == text@,
            ranges_within(ranges@, chars@.len() as int),
            cut(chars@, ranges@) == lines_of(text@),
            out@.len() == i,
            forall|k: int| 0 <= k < i ==> (#[trigger] out@[k])@ == lines_of(text@)[k],
        decreases ranges.len() - i,
    {
        let (a, b) = ranges[i];
        assert(cut(chars@, ranges@)[i as int] == chars@.subrange(a as int, b as int));
        out.push(string_of_range(chars.as_slice(), a, b));
        i += 1;
    }
    assert(out.deep_view() =~= lines_of(text@));
    out
}

} // verus!
