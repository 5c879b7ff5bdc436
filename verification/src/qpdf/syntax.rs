//! The lexical layer: character classes, white space and comments, tokens,
//! numbers and hexadecimal digits.

use vstd::prelude::*;

verus! {

/// White space: NUL, tab, line feed, form feed, carriage return, space.
pub open spec fn is_space(b: u8) -> bool {
    b == 0 || b == 9 || b == 10 || b == 12 || b == 13 || b == 32
}

/// The delimiters: `( ) < > [ ] { } / %`.
pub open spec fn is_delimiter(b: u8) -> bool {
    b == 40 || b == 41 || b == 60 || b == 62 || b == 91 || b == 93 || b == 123 || b == 125 || b
        == 47 || b == 37
}

/// A regular byte is neither white space nor a delimiter.
pub open spec fn is_regular(b: u8) -> bool {
    !is_space(b) && !is_delimiter(b)
}

/// A decimal digit.
pub open spec fn is_digit(b: u8) -> bool {
    48 <= b <= 57
}

/// The end of a line: line feed or carriage return.
pub open spec fn is_eol(b: u8) -> bool {
    b == 10 || b == 13
}

pub fn byte_is_space(b: u8) -> (r: bool)
    ensures
        r == is_space(b),
{
    b == 0 || b == 9 || b == 10 || b == 12 || b == 13 || b == 32
}

pub fn byte_is_regular(b: u8) -> (r: bool)
    ensures
        r == is_regular(b),
{
    !(byte_is_space(b) || b == 40 || b == 41 || b == 60 || b == 62 || b == 91 || b == 93 || b
        == 123 || b == 125 || b == 47 || b == 37)
}

pub fn byte_is_digit(b: u8) -> (r: bool)
    ensures
        r == is_digit(b),
{
    48 <= b && b <= 57
}

/// Whether `pattern` stands in `b` at `pos`.
pub open spec fn has_at(b: Seq<u8>, pos: int, pattern: Seq<u8>) -> bool {
    &&& 0 <= pos
    &&& pos + pattern.len() <= b.len()
    &&& b.subrange(pos, pos + pattern.len()) == pattern
}

pub fn starts_at(b: &Vec<u8>, pos: usize, pattern: &Vec<u8>) -> (r: bool)
    ensures
        r == has_at(b@, pos as int, pattern@),
{
    if pos > b.len() || pattern.len() > b.len() - pos {
        return false;
    }
    let mut i: usize = 0;
    while i < pattern.len()
        invariant
            i <= pattern.len(),
            pos + pattern.len() <= b.len(),
            forall|j: int| 0 <= j < i ==> b@[pos + j] == pattern@[j],
        decreases pattern.len() - i,
    {
        if b[pos + i] != pattern[i] {
            assert(b@.subrange(pos as int, pos + pattern.len())[i as int] != pattern@[i as int]);
            return false;
        }
        i += 1;
    }
    assert(b@.subrange(pos as int, pos + pattern.len()) =~= pattern@);
    true
}

/// The position of the first byte at or after `pos` that ends the line, or
/// the length of `b`.
pub open spec fn line_end(b: Seq<u8>, pos: int) -> int
    decreases b.len() - pos,
{
    if pos < 0 || pos >= b.len() {
        b.len() as int
    } else if is_eol(b[pos]) {
        pos
    } else {
        line_end(b, pos + 1)
    }
}

/// The position of the first byte at or after `pos` that is neither white
/// space nor part of a comment; a comment runs from `%` to the end of its
/// line.
pub open spec fn skip_space(b: Seq<u8>, pos: int) -> int
    decreases b.len() - pos,
{
    if pos < 0 || pos >= b.len() {
        pos
    } else if is_space(b[pos]) {
        skip_space(b, pos + 1)
    } else if b[pos] == 37 {
        let end = line_end(b, pos + 1);
        if pos < end <= b.len() {
            skip_space(b, end)
        } else {
            pos
        }
    } else {
        pos
    }
}

/// Nothing is skipped from a position at or beyond the end.
pub proof fn lemma_skip_space_beyond(b: Seq<u8>, pos: int)
    requires
        pos >= b.len(),
    ensures
        skip_space(b, pos) == pos,
{
}

pub proof fn lemma_line_end_bounds(b: Seq<u8>, pos: int)
    requires
        0 <= pos <= b.len(),
    ensures
        pos <= line_end(b, pos) <= b.len(),
    decreases b.len() - pos,
{
    if pos < b.len() && !is_eol(b[pos]) {
        lemma_line_end_bounds(b, pos + 1);
    }
}

pub proof fn lemma_skip_space_bounds(b: Seq<u8>, pos: int)
    requires
        0 <= pos <= b.len(),
    ensures
        pos <= skip_space(b, pos) <= b.len(),
        skip_space(b, pos) < b.len() ==> !is_space(b[skip_space(b, pos)]) && b[skip_space(b, pos)]
            != 37,
    decreases b.len() - pos,
{
    if pos < b.len() {
        if is_space(b[pos]) {
            lemma_skip_space_bounds(b, pos + 1);
        } else if b[pos] == 37 {
            lemma_line_end_bounds(b, pos + 1);
            lemma_skip_space_bounds(b, line_end(b, pos + 1));
        }
    }
}

pub fn find_line_end(b: &Vec<u8>, pos: usize) -> (r: usize)
    requires
        pos <= b.len(),
    ensures
        r as int == line_end(b@, pos as int),
        pos <= r <= b.len(),
{
    let mut i: usize = pos;
    while i < b.len() && !(b[i] == 10 || b[i] == 13)
        invariant
            pos <= i <= b.len(),
            line_end(b@, pos as int) == line_end(b@, i as int),
        decreases b.len() - i,
    {
        i += 1;
    }
    i
}

pub fn skip_white(b: &Vec<u8>, pos: usize) -> (r: usize)
    requires
        pos <= b.len(),
    ensures
        r as int == skip_space(b@, pos as int),
        pos <= r <= b.len(),
{
    let mut i: usize = pos;
    loop
        invariant
            pos <= i <= b.len(),
            skip_space(b@, pos as int) == skip_space(b@, i as int),
        decreases b.len() - i,
    {
        if i >= b.len() {
            return i;
        }
        if byte_is_space(b[i]) {
            i += 1;
        } else if b[i] == 37 {
            let end: usize = find_line_end(b, i + 1);
            i = end;
        } else {
            return i;
        }
    }
}

/// The position of the first byte at or after `pos` that is not regular.
pub open spec fn token_end(b: Seq<u8>, pos: int) -> int
    decreases b.len() - pos,
{
    if pos < 0 || pos >= b.len() {
        pos
    } else if is_regular(b[pos]) {
        token_end(b, pos + 1)
    } else {
        pos
    }
}

pub proof fn lemma_token_end_bounds(b: Seq<u8>, pos: int)
    requires
        0 <= pos <= b.len(),
    ensures
        pos <= token_end(b, pos) <= b.len(),
        forall|i: int| pos <= i < token_end(b, pos) ==> is_regular(#[trigger] b[i]),
        token_end(b, pos) < b.len() ==> !is_regular(b[token_end(b, pos)]),
    decreases b.len() - pos,
{
    if pos < b.len() && is_regular(b[pos]) {
        lemma_token_end_bounds(b, pos + 1);
    }
}

pub fn find_token_end(b: &Vec<u8>, pos: usize) -> (r: usize)
    requires
        pos <= b.len(),
    ensures
        r as int == token_end(b@, pos as int),
        pos <= r <= b.len(),
{
    let mut i: usize = pos;
    while i < b.len() && byte_is_regular(b[i])
        invariant
            pos <= i <= b.len(),
            token_end(b@, pos as int) == token_end(b@, i as int),
        decreases b.len() - i,
    {
        i += 1;
    }
    i
}

/// The number that a run of decimal digits stands for.
pub open spec fn digits_value(s: Seq<u8>) -> nat
    decreases s.len(),
{
    if s.len() == 0 {
        0
    } else {
        (digits_value(s.drop_last()) * 10 + (s.last() - 48)) as nat
    }
}

/// Every byte is a decimal digit.
pub open spec fn all_digits(s: Seq<u8>) -> bool {
    forall|i: int| 0 <= i < s.len() ==> is_digit(#[trigger] s[i])
}

/// The decimal digits of a number, without leading zeros.
pub open spec fn digits_of(n: nat) -> Seq<u8>
    decreases n,
{
    if n < 10 {
        seq![(48 + n) as u8]
    } else {
        digits_of(n / 10).push((48 + n % 10) as u8)
    }
}

/// The text of an integer: a minus sign where it is negative, then its
/// digits.
pub open spec fn int_text(i: int) -> Seq<u8> {
    if i < 0 {
        seq![45u8] + digits_of((-i) as nat)
    } else {
        digits_of(i as nat)
    }
}

/// Adds the digits of `n` to `out`.
pub fn push_digits(out: &mut Vec<u8>, n: u64)
    ensures
        final(out)@ == old(out)@ + digits_of(n as nat),
    decreases n,
{
    if n >= 10 {
        push_digits(out, n / 10);
    }
    let d: u8 = (n % 10) as u8;
    out.push(48 + d);
    assert(out@ =~= old(out)@ + digits_of(n as nat));
}

/// Adds the text of `i` to `out`.
pub fn push_int(out: &mut Vec<u8>, i: i64)
    ensures
        final(out)@ == old(out)@ + int_text(i as int),
{
    if i < 0 {
        out.push(45);
        let m: u64 = ((-(i + 1)) as u64) + 1;
        push_digits(out, m);
        assert(out@ =~= old(out)@ + int_text(i as int));
    } else {
        push_digits(out, i as u64);
    }
}

/// The value of the digits of `b` from `from` to `to`, where they are all
/// digits, at least one, and the value is at most `limit`.
pub open spec fn bounded_digits(b: Seq<u8>, from: int, to: int, limit: nat) -> Option<nat> {
    if 0 <= from < to <= b.len() && all_digits(b.subrange(from, to)) && digits_value(
        b.subrange(from, to),
    ) <= limit {
        Some(digits_value(b.subrange(from, to)))
    } else {
        None
    }
}

pub proof fn lemma_digits_value_monotone(s: Seq<u8>, k: int)
    requires
        all_digits(s),
        0 <= k <= s.len(),
    ensures
        digits_value(s.subrange(0, k)) <= digits_value(s),
    decreases s.len() - k,
{
    if k < s.len() {
        let t = s.subrange(0, k + 1);
        assert(t.drop_last() =~= s.subrange(0, k));
        assert(is_digit(t.last()));
        lemma_digits_value_monotone(s, k + 1);
    } else {
        assert(s.subrange(0, k) =~= s);
    }
}

pub fn read_digits(b: &Vec<u8>, from: usize, to: usize, limit: u64) -> (r: Option<u64>)
    requires
        from <= to <= b.len(),
    ensures
        r matches Some(n) ==> bounded_digits(b@, from as int, to as int, limit as nat) == Some(
            n as nat,
        ),
        r is None ==> bounded_digits(b@, from as int, to as int, limit as nat) is None,
{
    if from >= to {
        return None;
    }
    let ghost s = b@.subrange(from as int, to as int);
    let mut n: u64 = 0;
    let mut i: usize = from;
    while i < to
        invariant
            from <= i <= to <= b.len(),
            s == b@.subrange(from as int, to as int),
            all_digits(s.subrange(0, i - from)),
            n as nat == digits_value(s.subrange(0, i - from)),
            n <= limit,
        decreases to - i,
    {
        let c: u8 = b[i];
        if !byte_is_digit(c) {
            assert(s[i - from] == c);
            return None;
        }
        let ghost t = s.subrange(0, i - from + 1);
        proof {
            assert(t.drop_last() =~= s.subrange(0, i - from));
            assert(t.last() == c);
            assert forall|j: int| 0 <= j < t.len() implies is_digit(#[trigger] t[j]) by {
                if j < i - from {
                    assert(t[j] == s.subrange(0, i - from)[j]);
                }
            }
        }
        let m: u128 = (n as u128) * 10 + ((c - 48) as u128);
        if m > limit as u128 {
            proof {
                if all_digits(s) {
                    lemma_digits_value_monotone(s, i - from + 1);
                }
            }
            return None;
        }
        n = m as u64;
        i += 1;
    }
    assert(s.subrange(0, to - from) =~= s);
    Some(n)
}

/// The value of a hexadecimal digit, in either case.
pub open spec fn hex_value(c: u8) -> Option<u8> {
    if 48 <= c <= 57 {
        Some((c - 48) as u8)
    } else if 65 <= c <= 70 {
        Some((c - 55) as u8)
    } else if 97 <= c <= 102 {
        Some((c - 87) as u8)
    } else {
        None
    }
}

pub fn hex_value_of(c: u8) -> (r: Option<u8>)
    ensures
        r == hex_value(c),
        r matches Some(v) ==> v < 16,
{
    if 48 <= c && c <= 57 {
        Some(c - 48)
    } else if 65 <= c && c <= 70 {
        Some(c - 55)
    } else if 97 <= c && c <= 102 {
        Some(c - 87)
    } else {
        None
    }
}

/// The position of the first byte from `pos` on that is no digit, or `end`.
pub open spec fn digits_end(b: Seq<u8>, pos: int, end: int) -> int
    decreases end - pos,
{
    if pos < 0 || pos >= end || pos >= b.len() {
        pos
    } else if is_digit(b[pos]) {
        digits_end(b, pos + 1, end)
    } else {
        pos
    }
}

pub fn find_digits_end(b: &Vec<u8>, pos: usize, end: usize) -> (r: usize)
    requires
        pos <= end <= b.len(),
    ensures
        r as int == digits_end(b@, pos as int, end as int),
        pos <= r <= end,
{
    let mut i: usize = pos;
    while i < end && byte_is_digit(b[i])
        invariant
            pos <= i <= end <= b.len(),
            digits_end(b@, pos as int, end as int) == digits_end(b@, i as int, end as int),
        decreases end - i,
    {
        i += 1;
    }
    i
}

} // verus!
