//! Reading values: names, strings, numbers, references, arrays and
//! dictionaries from bytes.

use crate::qpdf::object::string_from_utf8;
use crate::qpdf::object::types::ObjectRef;
use crate::qpdf::object::value::{
    entries_view, lemma_view_members, values_view, Entry, EntryModel, ObjectValue, Value,
};
use crate::qpdf::object::{entries_with_key, replace_entry};
use crate::qpdf::store::MAX_OBJECT_ID;
use crate::qpdf::syntax::{
    bounded_digits, byte_is_digit, byte_is_space, digits_end, find_digits_end, find_token_end,
    hex_value, hex_value_of, is_digit, is_space, lemma_token_end_bounds, read_digits,
    skip_space, skip_white, token_end,
};
use crate::qpdf::writer::{false_text, null_text, true_text};
use vstd::prelude::*;
use vstd::utf8::{decode_utf8, encode_utf8, valid_utf8};

verus! {

/// How deep arrays and dictionaries may be nested in what is read.
pub const MAX_DEPTH: usize = 64;

/// The bytes of a name between `pos` and `end`, with each `#` and its two
/// hexadecimal digits read as one byte, added to `acc`. `None` where a `#`
/// is not followed by two hexadecimal digits.
pub open spec fn unescape(b: Seq<u8>, pos: int, end: int, acc: Seq<u8>) -> Option<Seq<u8>>
    decreases end - pos,
{
    if pos < 0 || pos >= end || end > b.len() {
        Some(acc)
    } else if b[pos] == 35 {
        if pos + 3 <= end && hex_value(b[pos + 1]) is Some && hex_value(b[pos + 2]) is Some {
            unescape(
                b,
                pos + 3,
                end,
                acc.push((hex_value(b[pos + 1])->0 * 16 + hex_value(b[pos + 2])->0) as u8),
            )
        } else {
            None
        }
    } else {
        unescape(b, pos + 1, end, acc.push(b[pos]))
    }
}

/// The name that starts with the slash at `pos`, and where it ends. The
/// name keeps its slash; its bytes must be valid UTF-8.
pub open spec fn parse_name(b: Seq<u8>, pos: int) -> Option<(Seq<char>, int)> {
    if 0 <= pos < b.len() && b[pos] == 47 {
        let end = token_end(b, pos + 1);
        match unescape(b, pos + 1, end, seq![47u8]) {
            Some(bytes) => if valid_utf8(bytes) {
                Some((decode_utf8(bytes), end))
            } else {
                None
            },
            None => None,
        }
    } else {
        None
    }
}

/// The bytes of a hexadecimal string from `pos` to its closing `>`, and
/// the position after it. White space is skipped; a last digit without a
/// partner counts as the high half of a byte.
pub open spec fn scan_hex(b: Seq<u8>, pos: int, acc: Seq<u8>, pending: Option<u8>) -> Option<
    (Seq<u8>, int),
>
    decreases b.len() - pos,
{
    if pos < 0 || pos >= b.len() {
        None
    } else if b[pos] == 62 {
        Some(
            (
                match pending {
                    Some(h) => acc.push((h * 16) as u8),
                    None => acc,
                },
                pos + 1,
            ),
        )
    } else if is_space(b[pos]) {
        scan_hex(b, pos + 1, acc, pending)
    } else {
        match hex_value(b[pos]) {
            Some(h) => match pending {
                Some(p) => scan_hex(b, pos + 1, acc.push((p * 16 + h) as u8), None),
                None => scan_hex(b, pos + 1, acc, Some(h)),
            },
            None => None,
        }
    }
}

/// An octal digit.
pub open spec fn is_octal(c: u8) -> bool {
    48 <= c <= 55
}

/// The byte that a backslash and `e` stand for.
pub open spec fn escape_value(e: u8) -> u8 {
    if e == 110 {
        10
    } else if e == 114 {
        13
    } else if e == 116 {
        9
    } else if e == 98 {
        8
    } else if e == 102 {
        12
    } else {
        e
    }
}

/// The bytes of a literal string from `pos` to the `)` that closes it, and
/// the position after it. Balanced parentheses belong to the string; a
/// backslash starts an escape: a letter, up to three octal digits, or the
/// end of a line, which is dropped; an end of line in the string is read
/// as a line feed.
pub open spec fn scan_literal(b: Seq<u8>, pos: int, nesting: nat, acc: Seq<u8>) -> Option<
    (Seq<u8>, int),
>
    decreases b.len() - pos,
{
    if pos < 0 || pos >= b.len() {
        None
    } else {
        let c = b[pos];
        if c == 92 {
            if pos + 1 >= b.len() {
                None
            } else {
                let e = b[pos + 1];
                if is_octal(e) {
                    let n1 = e - 48;
                    if pos + 2 < b.len() && is_octal(b[pos + 2]) {
                        let n2 = n1 * 8 + (b[pos + 2] - 48);
                        if pos + 3 < b.len() && is_octal(b[pos + 3]) {
                            scan_literal(
                                b,
                                pos + 4,
                                nesting,
                                acc.push(((n2 * 8 + (b[pos + 3] - 48)) % 256) as u8),
                            )
                        } else {
                            scan_literal(b, pos + 3, nesting, acc.push(n2 as u8))
                        }
                    } else {
                        scan_literal(b, pos + 2, nesting, acc.push(n1 as u8))
                    }
                } else if e == 13 {
                    if pos + 2 < b.len() && b[pos + 2] == 10 {
                        scan_literal(b, pos + 3, nesting, acc)
                    } else {
                        scan_literal(b, pos + 2, nesting, acc)
                    }
                } else if e == 10 {
                    scan_literal(b, pos + 2, nesting, acc)
                } else {
                    scan_literal(b, pos + 2, nesting, acc.push(escape_value(e)))
                }
            }
        } else if c == 40 {
            scan_literal(b, pos + 1, nesting + 1, acc.push(c))
        } else if c == 41 {
            if nesting == 0 {
                Some((acc, pos + 1))
            } else {
                scan_literal(b, pos + 1, (nesting - 1) as nat, acc.push(c))
            }
        } else if c == 13 {
            if pos + 1 < b.len() && b[pos + 1] == 10 {
                scan_literal(b, pos + 2, nesting, acc.push(10))
            } else {
                scan_literal(b, pos + 1, nesting, acc.push(10))
            }
        } else {
            scan_literal(b, pos + 1, nesting, acc.push(c))
        }
    }
}

/// The number whose token starts at `pos`: an optional sign and digits
/// give an integer, which must fit 64 bits; digits with one point among
/// them give a real number, kept as its text.
pub open spec fn parse_number(b: Seq<u8>, pos: int) -> Option<(Value, int)> {
    if 0 <= pos < b.len() {
        let end = token_end(b, pos);
        let start = if b[pos] == 43 || b[pos] == 45 {
            pos + 1
        } else {
            pos
        };
        let d1 = digits_end(b, start, end);
        if d1 == end {
            let limit: nat = if b[pos] == 45 {
                9223372036854775808
            } else {
                9223372036854775807
            };
            match bounded_digits(b, start, end, limit) {
                Some(n) => Some(
                    (
                        Value::Integer(
                            if b[pos] == 45 {
                                -(n as int)
                            } else {
                                n as int
                            },
                        ),
                        end,
                    ),
                ),
                None => None,
            }
        } else if start <= d1 < end && b[d1] == 46 && digits_end(b, d1 + 1, end) == end && (d1
            > start || end > d1 + 1) && valid_utf8(b.subrange(pos, end)) {
            Some((Value::Real(decode_utf8(b.subrange(pos, end))), end))
        } else {
            None
        }
    } else {
        None
    }
}

/// What follows an unsigned integer `first` whose token ends at `end`,
/// where it makes a reference: white space, a generation of at most 65535,
/// white space, and `R` alone. A number that no object can have makes the
/// reference null.
pub open spec fn parse_reference_tail(b: Seq<u8>, end: int, first: int) -> Option<(Value, int)> {
    let s2 = skip_space(b, end);
    let e2 = token_end(b, s2);
    let s3 = skip_space(b, e2);
    if reference_follows(b, end) {
        let generation = bounded_digits(b, s2, e2, 65535)->0;
        Some(
            (
                if 0 < first <= MAX_OBJECT_ID {
                    Value::Indirect(
                        ObjectRef { id: first as i32, generation: generation as i32 },
                    )
                } else {
                    Value::Null
                },
                s3 + 1,
            ),
        )
    } else {
        None
    }
}

/// Whether what follows an unsigned integer whose token ends at `end`
/// makes a reference of it.
pub open spec fn reference_follows(b: Seq<u8>, end: int) -> bool {
    let s2 = skip_space(b, end);
    let e2 = token_end(b, s2);
    let s3 = skip_space(b, e2);
    end < s2 < b.len() && is_digit(b[s2]) && bounded_digits(b, s2, e2, 65535) is Some && e2 < s3
        < b.len() && b[s3] == 82 && token_end(b, s3) == s3 + 1
}

/// The value that starts at or after `pos`, white space and comments
/// skipped, and the position after it. `depth` bounds how deep arrays and
/// dictionaries may be nested.
pub open spec fn parse_value(b: Seq<u8>, pos: int, depth: nat) -> Option<(Value, int)>
    decreases depth, b.len() - pos, 0nat,
{
    let p = skip_space(b, pos);
    if depth == 0 || pos < 0 || p < pos || p >= b.len() {
        None
    } else {
        let c = b[p];
        if c == 47 {
            match parse_name(b, p) {
                Some((name, end)) => Some((Value::Name(name), end)),
                None => None,
            }
        } else if c == 40 {
            match scan_literal(b, p + 1, 0, Seq::empty()) {
                Some((bytes, end)) => Some((Value::String(bytes), end)),
                None => None,
            }
        } else if c == 60 {
            if p + 1 < b.len() && b[p + 1] == 60 {
                match parse_entries(b, p + 2, Seq::empty(), (depth - 1) as nat) {
                    Some((entries, end)) => Some((Value::Dictionary(entries), end)),
                    None => None,
                }
            } else {
                match scan_hex(b, p + 1, Seq::empty(), None) {
                    Some((bytes, end)) => Some((Value::String(bytes), end)),
                    None => None,
                }
            }
        } else if c == 91 {
            match parse_items(b, p + 1, Seq::empty(), (depth - 1) as nat) {
                Some((items, end)) => Some((Value::Array(items), end)),
                None => None,
            }
        } else if is_digit(c) || c == 43 || c == 45 || c == 46 {
            match parse_number(b, p) {
                Some((Value::Integer(n), end)) => if is_digit(c) {
                    match parse_reference_tail(b, end, n) {
                        Some(r) => Some(r),
                        None => Some((Value::Integer(n), end)),
                    }
                } else {
                    Some((Value::Integer(n), end))
                },
                other => other,
            }
        } else {
            let end = token_end(b, p);
            let token = b.subrange(p, end);
            if token == true_text() {
                Some((Value::Bool(true), end))
            } else if token == false_text() {
                Some((Value::Bool(false), end))
            } else if token == null_text() {
                Some((Value::Null, end))
            } else {
                None
            }
        }
    }
}

/// The items of an array from `pos` to its closing `]`, added to `acc`,
/// and the position after it.
pub open spec fn parse_items(b: Seq<u8>, pos: int, acc: Seq<Value>, depth: nat) -> Option<
    (Seq<Value>, int),
>
    decreases depth, b.len() - pos, 1nat,
{
    let p = skip_space(b, pos);
    if pos < 0 || p < pos || p >= b.len() {
        None
    } else if b[p] == 93 {
        Some((acc, p + 1))
    } else {
        match parse_value(b, pos, depth) {
            Some((v, next)) => if pos < next <= b.len() {
                parse_items(b, next, acc.push(v), depth)
            } else {
                None
            },
            None => None,
        }
    }
}

/// The entries of a dictionary from `pos` to its closing `>>`, put into
/// `acc` key by key, and the position after it. A key that occurs again
/// takes the place of the earlier one.
pub open spec fn parse_entries(b: Seq<u8>, pos: int, acc: Seq<EntryModel>, depth: nat) -> Option<
    (Seq<EntryModel>, int),
>
    decreases depth, b.len() - pos, 1nat,
{
    let p = skip_space(b, pos);
    if pos < 0 || p < pos || p >= b.len() {
        None
    } else if b[p] == 62 {
        if p + 1 < b.len() && b[p + 1] == 62 {
            Some((acc, p + 2))
        } else {
            None
        }
    } else {
        match parse_name(b, p) {
            Some((key, end)) => if pos < end <= b.len() {
                match parse_value(b, end, depth) {
                    Some((v, next)) => if end < next <= b.len() {
                        parse_entries(b, next, entries_with_key(acc, key, v), depth)
                    } else {
                        None
                    },
                    None => None,
                }
            } else {
                None
            },
            None => None,
        }
    }
}

/// A copy of the bytes from `from` to `to`.
pub fn copy_range(b: &Vec<u8>, from: usize, to: usize) -> (r: Vec<u8>)
    requires
        from <= to <= b.len(),
    ensures
        r@ == b@.subrange(from as int, to as int),
{
    let mut r: Vec<u8> = Vec::new();
    let mut i: usize = from;
    while i < to
        invariant
            from <= i <= to <= b.len(),
            r@ == b@.subrange(from as int, i as int),
        decreases to - i,
    {
        r.push(b[i]);
        assert(b@.subrange(from as int, i + 1) =~= b@.subrange(from as int, i as int).push(
            b@[i as int],
        ));
        i += 1;
    }
    r
}

/// The text that `bytes` encode, where they are valid UTF-8.
pub fn text_of(bytes: Vec<u8>) -> (r: Option<String>)
    ensures
        r is Some <==> valid_utf8(bytes@),
        r matches Some(s) ==> s@ == decode_utf8(bytes@) && encode_utf8(s@) == bytes@,
{
    let r = string_from_utf8(bytes);
    proof {
        if r is Some {
            vstd::utf8::encode_utf8_decode_utf8(r->0@);
        }
    }
    r
}

/// Reads the name at `pos`.
pub fn read_name(b: &Vec<u8>, pos: usize) -> (r: Option<(String, usize)>)
    ensures
        r matches Some((name, next)) ==> parse_name(b@, pos as int) == Some(
            (name@, next as int),
        ) && pos < next <= b.len(),
        r is None ==> parse_name(b@, pos as int) is None,
{
    if pos >= b.len() || b[pos] != 47 {
        return None;
    }
    let end: usize = find_token_end(b, pos + 1);
    let mut acc: Vec<u8> = Vec::new();
    acc.push(47);
    let mut i: usize = pos + 1;
    while i < end
        invariant
            pos + 1 <= i <= end <= b.len(),
            b@[pos as int] == 47,
            end as int == token_end(b@, pos + 1),
            unescape(b@, pos + 1, end as int, seq![47u8]) == unescape(
                b@,
                i as int,
                end as int,
                acc@,
            ),
        decreases end - i,
    {
        let c: u8 = b[i];
        if c == 35 {
            if end - i < 3 {
                return None;
            }
            match (hex_value_of(b[i + 1]), hex_value_of(b[i + 2])) {
                (Some(h), Some(l)) => {
                    acc.push(h * 16 + l);
                    i += 3;
                },
                _ => {
                    return None;
                },
            }
        } else {
            acc.push(c);
            i += 1;
        }
    }
    match text_of(acc) {
        Some(name) => Some((name, end)),
        None => None,
    }
}

/// Reads the hexadecimal string whose `<` stands before `pos`.
pub fn read_hex_string(b: &Vec<u8>, pos: usize) -> (r: Option<(Vec<u8>, usize)>)
    ensures
        r matches Some((bytes, next)) ==> scan_hex(b@, pos as int, Seq::empty(), None) == Some(
            (bytes@, next as int),
        ) && pos < next <= b.len(),
        r is None ==> scan_hex(b@, pos as int, Seq::empty(), None) is None,
{
    let mut acc: Vec<u8> = Vec::new();
    let mut pending: Option<u8> = None;
    let mut i: usize = pos;
    loop
        invariant
            pos <= i,
            pending matches Some(h) ==> h < 16,
            scan_hex(b@, pos as int, Seq::empty(), None) == scan_hex(
                b@,
                i as int,
                acc@,
                pending,
            ),
        decreases b.len() - i,
    {
        if i >= b.len() {
            return None;
        }
        let c: u8 = b[i];
        if c == 62 {
            if let Some(h) = pending {
                acc.push(h * 16);
            }
            return Some((acc, i + 1));
        } else if byte_is_space(c) {
            i += 1;
        } else {
            match hex_value_of(c) {
                Some(h) => {
                    match pending {
                        Some(p) => {
                            acc.push(p * 16 + h);
                            pending = None;
                        },
                        None => {
                            pending = Some(h);
                        },
                    }
                    i += 1;
                },
                None => {
                    return None;
                },
            }
        }
    }
}

fn byte_is_octal(c: u8) -> (r: bool)
    ensures
        r == is_octal(c),
{
    48 <= c && c <= 55
}

fn escape_value_of(e: u8) -> (r: u8)
    ensures
        r == escape_value(e),
{
    if e == 110 {
        10
    } else if e == 114 {
        13
    } else if e == 116 {
        9
    } else if e == 98 {
        8
    } else if e == 102 {
        12
    } else {
        e
    }
}

/// Reads the literal string whose `(` stands before `pos`.
pub fn read_literal_string(b: &Vec<u8>, pos: usize) -> (r: Option<(Vec<u8>, usize)>)
    ensures
        r matches Some((bytes, next)) ==> scan_literal(b@, pos as int, 0, Seq::empty()) == Some(
            (bytes@, next as int),
        ) && pos < next <= b.len(),
        r is None ==> scan_literal(b@, pos as int, 0, Seq::empty()) is None,
{
    let mut acc: Vec<u8> = Vec::new();
    let mut nesting: usize = 0;
    let mut i: usize = pos;
    loop
        invariant
            pos <= i,
            nesting <= i - pos,
            scan_literal(b@, pos as int, 0, Seq::empty()) == scan_literal(
                b@,
                i as int,
                nesting as nat,
                acc@,
            ),
        decreases b.len() - i,
    {
        if i >= b.len() {
            return None;
        }
        let c: u8 = b[i];
        if c == 92 {
            if b.len() - i < 2 {
                return None;
            }
            let e: u8 = b[i + 1];
            if byte_is_octal(e) {
                let n1: u16 = (e - 48) as u16;
                if b.len() - i > 2 && byte_is_octal(b[i + 2]) {
                    let n2: u16 = n1 * 8 + (b[i + 2] - 48) as u16;
                    if b.len() - i > 3 && byte_is_octal(b[i + 3]) {
                        let n3: u16 = n2 * 8 + (b[i + 3] - 48) as u16;
                        acc.push((n3 % 256) as u8);
                        i += 4;
                    } else {
                        acc.push(n2 as u8);
                        i += 3;
                    }
                } else {
                    acc.push(n1 as u8);
                    i += 2;
                }
            } else if e == 13 {
                if b.len() - i > 2 && b[i + 2] == 10 {
                    i += 3;
                } else {
                    i += 2;
                }
            } else if e == 10 {
                i += 2;
            } else {
                acc.push(escape_value_of(e));
                i += 2;
            }
        } else if c == 40 {
            acc.push(c);
            nesting += 1;
            i += 1;
        } else if c == 41 {
            if nesting == 0 {
                return Some((acc, i + 1));
            }
            acc.push(c);
            nesting -= 1;
            i += 1;
        } else if c == 13 {
            acc.push(10);
            if b.len() - i > 1 && b[i + 1] == 10 {
                i += 2;
            } else {
                i += 1;
            }
        } else {
            acc.push(c);
            i += 1;
        }
    }
}

/// Reads the number whose token starts at `pos`.
pub fn read_number(b: &Vec<u8>, pos: usize) -> (r: Option<(ObjectValue, usize)>)
    ensures
        r matches Some((v, next)) ==> parse_number(b@, pos as int) == Some((v@, next as int))
            && pos < next <= b.len() && (v is Integer || v is Real),
        r is None ==> parse_number(b@, pos as int) is None,
{
    if pos >= b.len() {
        return None;
    }
    let end: usize = find_token_end(b, pos);
    let negative: bool = b[pos] == 45;
    let start: usize = if b[pos] == 43 || b[pos] == 45 {
        pos + 1
    } else {
        pos
    };
    if start > end {
        proof {
            lemma_token_end_bounds(b@, pos as int);
        }
        return None;
    }
    let d1: usize = find_digits_end(b, start, end);
    if d1 == end {
        let limit: u64 = if negative {
            9223372036854775808
        } else {
            9223372036854775807
        };
        match read_digits(b, start, end, limit) {
            Some(n) => {
                let i: i64 = if negative {
                    if n == 9223372036854775808 {
                        -9223372036854775808
                    } else {
                        -(n as i64)
                    }
                } else {
                    n as i64
                };
                Some((ObjectValue::Integer(i), end))
            },
            None => None,
        }
    } else if b[d1] == 46 {
        let d2: usize = find_digits_end(b, d1 + 1, end);
        if d2 == end && (d1 > start || end > d1 + 1) {
            match text_of(copy_range(b, pos, end)) {
                Some(text) => Some((ObjectValue::Real(text), end)),
                None => None,
            }
        } else {
            None
        }
    } else {
        None
    }
}

/// Reads what makes a reference of the unsigned integer `first`, whose
/// token ends at `end`.
pub fn read_reference_tail(b: &Vec<u8>, end: usize, first: i64) -> (r: Option<
    (ObjectValue, usize),
>)
    requires
        end <= b.len(),
    ensures
        r matches Some((v, next)) ==> parse_reference_tail(b@, end as int, first as int) == Some(
            (v@, next as int),
        ) && end < next <= b.len() && v@.wf(),
        r is None ==> parse_reference_tail(b@, end as int, first as int) is None,
{
    let s2: usize = skip_white(b, end);
    let e2: usize = find_token_end(b, s2);
    let s3: usize = skip_white(b, e2);
    if !(end < s2 && s2 < b.len() && byte_is_digit(b[s2])) {
        return None;
    }
    let generation: u64 = match read_digits(b, s2, e2, 65535) {
        Some(g) => g,
        None => {
            return None;
        },
    };
    if !(e2 < s3 && s3 < b.len() && b[s3] == 82) {
        return None;
    }
    if find_token_end(b, s3) != s3 + 1 {
        return None;
    }
    if 0 < first && first <= MAX_OBJECT_ID as i64 {
        Some(
            (
                ObjectValue::Indirect(ObjectRef { id: first as i32, generation: generation as i32 }),
                s3 + 1,
            ),
        )
    } else {
        Some((ObjectValue::Null, s3 + 1))
    }
}

/// Whether the token from `p` to `end` is `word`.
fn token_is(b: &Vec<u8>, p: usize, end: usize, word: &Vec<u8>) -> (r: bool)
    requires
        p <= end <= b.len(),
    ensures
        r == (b@.subrange(p as int, end as int) == word@),
{
    if end - p != word.len() {
        assert(b@.subrange(p as int, end as int).len() != word@.len());
        return false;
    }
    crate::qpdf::syntax::starts_at(b, p, word)
}

/// Reads the items of an array up to its `]`.
pub fn read_items(b: &Vec<u8>, pos: usize, depth: usize) -> (r: Option<(Vec<ObjectValue>, usize)>)
    requires
        pos <= b.len(),
    ensures
        r matches Some((items, next)) ==> parse_items(
            b@,
            pos as int,
            Seq::empty(),
            depth as nat,
        ) == Some((values_view(items@), next as int)) && pos < next <= b.len() && (forall|
            i: int,
        |
            0 <= i < items@.len() ==> (#[trigger] items@[i])@.wf()),
        r is None ==> parse_items(b@, pos as int, Seq::empty(), depth as nat) is None,
    decreases depth, 1nat,
{
    let mut acc: Vec<ObjectValue> = Vec::new();
    let mut cur: usize = pos;
    assert(values_view(acc@) =~= Seq::<Value>::empty());
    loop
        invariant
            pos <= cur <= b.len(),
            parse_items(b@, pos as int, Seq::empty(), depth as nat) == parse_items(
                b@,
                cur as int,
                values_view(acc@),
                depth as nat,
            ),
            forall|i: int| 0 <= i < acc@.len() ==> (#[trigger] acc@[i])@.wf(),
        decreases b.len() - cur,
    {
        let p: usize = skip_white(b, cur);
        if p >= b.len() {
            return None;
        }
        if b[p] == 93 {
            return Some((acc, p + 1));
        }
        match read_value(b, cur, depth) {
            Some((v, next)) => {
                let ghost before = acc@;
                acc.push(v);
                assert(values_view(acc@) =~= values_view(before).push(v@));
                cur = next;
            },
            None => {
                return None;
            },
        }
    }
}

/// Reads the entries of a dictionary up to its `>>`.
pub fn read_entries(b: &Vec<u8>, pos: usize, depth: usize) -> (r: Option<(Vec<Entry>, usize)>)
    requires
        pos <= b.len(),
    ensures
        r matches Some((entries, next)) ==> parse_entries(
            b@,
            pos as int,
            Seq::empty(),
            depth as nat,
        ) == Some((entries_view(entries@), next as int)) && pos < next <= b.len()
            && crate::qpdf::object::value::entries_wf(entries_view(entries@)),
        r is None ==> parse_entries(b@, pos as int, Seq::empty(), depth as nat) is None,
    decreases depth, 1nat,
{
    let mut acc: Vec<Entry> = Vec::new();
    let mut cur: usize = pos;
    assert(entries_view(acc@) =~= Seq::<EntryModel>::empty());
    loop
        invariant
            pos <= cur <= b.len(),
            parse_entries(b@, pos as int, Seq::empty(), depth as nat) == parse_entries(
                b@,
                cur as int,
                entries_view(acc@),
                depth as nat,
            ),
            crate::qpdf::object::value::entries_wf(entries_view(acc@)),
        decreases b.len() - cur,
    {
        let p: usize = skip_white(b, cur);
        if p >= b.len() {
            return None;
        }
        if b[p] == 62 {
            if b.len() - p > 1 && b[p + 1] == 62 {
                return Some((acc, p + 2));
            }
            return None;
        }
        let (key, end) = match read_name(b, p) {
            Some(found) => found,
            None => {
                return None;
            },
        };
        match read_value(b, end, depth) {
            Some((v, next)) => {
                proof {
                    crate::qpdf::object::lemma_entries_with_key(entries_view(acc@), key@, v@);
                }
                replace_entry(&mut acc, key, v);
                cur = next;
            },
            None => {
                return None;
            },
        }
    }
}

/// Reads the value at or after `pos`.
pub fn read_value(b: &Vec<u8>, pos: usize, depth: usize) -> (r: Option<(ObjectValue, usize)>)
    requires
        pos <= b.len(),
    ensures
        r matches Some((v, next)) ==> parse_value(b@, pos as int, depth as nat) == Some(
            (v@, next as int),
        ) && pos < next <= b.len() && v@.wf(),
        r is None ==> parse_value(b@, pos as int, depth as nat) is None,
    decreases depth, 0nat,
{
    let p: usize = skip_white(b, pos);
    if depth == 0 || p >= b.len() {
        return None;
    }
    let c: u8 = b[p];
    if c == 47 {
        match read_name(b, p) {
            Some((name, end)) => Some((ObjectValue::Name(name), end)),
            None => None,
        }
    } else if c == 40 {
        match read_literal_string(b, p + 1) {
            Some((bytes, end)) => Some((ObjectValue::String(bytes), end)),
            None => None,
        }
    } else if c == 60 {
        if b.len() - p > 1 && b[p + 1] == 60 {
            match read_entries(b, p + 2, depth - 1) {
                Some((entries, end)) => {
                    let v = ObjectValue::Dictionary(entries);
                    proof {
                        lemma_view_members(v);
                    }
                    Some((v, end))
                },
                None => None,
            }
        } else {
            match read_hex_string(b, p + 1) {
                Some((bytes, end)) => Some((ObjectValue::String(bytes), end)),
                None => None,
            }
        }
    } else if c == 91 {
        match read_items(b, p + 1, depth - 1) {
            Some((items, end)) => {
                let v = ObjectValue::Array(items);
                proof {
                    lemma_view_members(v);
                    assert forall|i: int| 0 <= i < values_view(items@).len() implies (
                    #[trigger] values_view(items@)[i]).wf() by {
                        assert(items@[i]@.wf());
                    }
                }
                Some((v, end))
            },
            None => None,
        }
    } else if byte_is_digit(c) || c == 43 || c == 45 || c == 46 {
        match read_number(b, p) {
            Some((ObjectValue::Integer(n), end)) => {
                if byte_is_digit(c) {
                    match read_reference_tail(b, end, n) {
                        Some(found) => Some(found),
                        None => Some((ObjectValue::Integer(n), end)),
                    }
                } else {
                    Some((ObjectValue::Integer(n), end))
                }
            },
            other => other,
        }
    } else {
        let end: usize = find_token_end(b, p);
        if token_is(b, p, end, &vec![116, 114, 117, 101]) {
            assert(seq![116u8, 114, 117, 101] =~= true_text());
            proof {
                lemma_token_nonempty(b@, p as int);
            }
            Some((ObjectValue::Bool(true), end))
        } else if token_is(b, p, end, &vec![102, 97, 108, 115, 101]) {
            assert(seq![102u8, 97, 108, 115, 101] =~= false_text());
            proof {
                lemma_token_nonempty(b@, p as int);
            }
            Some((ObjectValue::Bool(false), end))
        } else if token_is(b, p, end, &vec![110, 117, 108, 108]) {
            assert(seq![110u8, 117, 108, 108] =~= null_text());
            proof {
                lemma_token_nonempty(b@, p as int);
            }
            Some((ObjectValue::Null, end))
        } else {
            assert(seq![116u8, 114, 117, 101] =~= true_text());
            assert(seq![102u8, 97, 108, 115, 101] =~= false_text());
            assert(seq![110u8, 117, 108, 108] =~= null_text());
            None
        }
    }
}

/// A token that is not empty ends after its start.
pub proof fn lemma_token_nonempty(b: Seq<u8>, p: int)
    requires
        0 <= p <= b.len(),
    ensures
        p <= token_end(b, p) <= b.len(),
        b.subrange(p, token_end(b, p)).len() == token_end(b, p) - p,
{
    lemma_token_end_bounds(b, p);
}

} // verus!
