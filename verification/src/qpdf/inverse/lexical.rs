//! Numbers, names and strings are read back as they were written.

use crate::qpdf::object::value::Value;
use crate::qpdf::reader::{parse_name, parse_number, scan_hex, unescape};
use crate::qpdf::syntax::{
    all_digits, bounded_digits, digits_end, digits_of, digits_value, has_at, hex_value,
    int_text, is_digit, is_regular, is_space, skip_space, token_end,
};
use crate::qpdf::writer::{escaped, hex_digit, hex_text, name_text, needs_escape, tail};
use crate::qpdf::layout::{is_name_text, is_real_text};
use vstd::prelude::*;
use vstd::utf8::encode_utf8;

verus! {

/// A token can end at `e`: the bytes end there, or a byte that is not
/// regular stands there.
pub open spec fn ends_token(b: Seq<u8>, e: int) -> bool {
    e == b.len() || (0 <= e < b.len() && !is_regular(b[e]))
}

/// Where a pattern stands, its bytes stand one by one.
pub proof fn lemma_has_at(b: Seq<u8>, pos: int, pattern: Seq<u8>)
    requires
        has_at(b, pos, pattern),
    ensures
        0 <= pos,
        pos + pattern.len() <= b.len(),
        forall|i: int| 0 <= i < pattern.len() ==> b[pos + i] == #[trigger] pattern[i],
{
    assert forall|i: int| 0 <= i < pattern.len() implies b[pos + i] == #[trigger] pattern[i] by {
        assert(b.subrange(pos, pos + pattern.len())[i] == b[pos + i]);
    }
}

/// Where the bytes of a pattern stand one by one, the pattern stands.
pub proof fn lemma_has_at_from(b: Seq<u8>, pos: int, pattern: Seq<u8>)
    requires
        0 <= pos,
        pos + pattern.len() <= b.len(),
        forall|i: int| 0 <= i < pattern.len() ==> b[pos + i] == #[trigger] pattern[i],
    ensures
        has_at(b, pos, pattern),
{
    assert(b.subrange(pos, pos + pattern.len()) =~= pattern);
}

/// A pattern made of two parts stands where the first part stands and
/// the second stands after it.
pub proof fn lemma_has_at_split(b: Seq<u8>, pos: int, x: Seq<u8>, y: Seq<u8>)
    requires
        has_at(b, pos, x + y),
    ensures
        has_at(b, pos, x),
        has_at(b, pos + x.len(), y),
{
    lemma_has_at(b, pos, x + y);
    assert forall|i: int| 0 <= i < x.len() implies b[pos + i] == #[trigger] x[i] by {
        assert((x + y)[i] == x[i]);
    }
    assert forall|i: int| 0 <= i < y.len() implies b[pos + x.len() + i] == #[trigger] y[i] by {
        assert((x + y)[x.len() + i] == y[i]);
    }
    lemma_has_at_from(b, pos, x);
    lemma_has_at_from(b, pos + x.len(), y);
}

/// A run of regular bytes that cannot go on is a token.
pub proof fn lemma_token_end_is(b: Seq<u8>, p: int, e: int)
    requires
        0 <= p <= e <= b.len(),
        forall|i: int| p <= i < e ==> is_regular(#[trigger] b[i]),
        ends_token(b, e),
    ensures
        token_end(b, p) == e,
    decreases e - p,
{
    if p < e {
        assert(is_regular(b[p]));
        lemma_token_end_is(b, p + 1, e);
    }
}

/// A run of digits that cannot go on ends where it ends.
pub proof fn lemma_digits_end_is(b: Seq<u8>, p: int, d: int, end: int)
    requires
        0 <= p <= d <= end <= b.len(),
        forall|i: int| p <= i < d ==> is_digit(#[trigger] b[i]),
        d == end || !is_digit(b[d]),
    ensures
        digits_end(b, p, end) == d,
    decreases d - p,
{
    if p < d {
        assert(is_digit(b[p]));
        lemma_digits_end_is(b, p + 1, d, end);
    }
}

/// Nothing is skipped before a byte that is neither white space nor the
/// start of a comment.
pub proof fn lemma_skip_space_none(b: Seq<u8>, p: int)
    requires
        0 <= p <= b.len(),
        p < b.len() ==> !is_space(b[p]) && b[p] != 37,
    ensures
        skip_space(b, p) == p,
{
}

/// One byte of white space is skipped before a byte that is neither.
pub proof fn lemma_skip_space_one(b: Seq<u8>, p: int)
    requires
        0 <= p < b.len(),
        is_space(b[p]),
        p + 1 < b.len() ==> !is_space(b[p + 1]) && b[p + 1] != 37,
    ensures
        skip_space(b, p) == p + 1,
{
    lemma_skip_space_none(b, p + 1);
}

/// The digits of a number are digits, at least one, and stand for the
/// number.
pub proof fn lemma_digits_of(n: nat)
    ensures
        digits_of(n).len() >= 1,
        all_digits(digits_of(n)),
        digits_value(digits_of(n)) == n,
        forall|i: int| 0 <= i < digits_of(n).len() ==> is_regular(#[trigger] digits_of(n)[i]),
    decreases n,
{
    let s = digits_of(n);
    if n < 10 {
        assert(s.drop_last() =~= Seq::<u8>::empty());
        assert(digits_value(s.drop_last()) == 0);
    } else {
        lemma_digits_of(n / 10);
        let head = digits_of(n / 10);
        assert(s.drop_last() =~= head);
        assert forall|i: int| 0 <= i < s.len() implies is_digit(#[trigger] s[i]) by {
            if i < head.len() {
                assert(s[i] == head[i]);
            }
        }
        assert forall|i: int| 0 <= i < s.len() implies is_regular(#[trigger] s[i]) by {
            if i < head.len() {
                assert(s[i] == head[i]);
            }
        }
    }
}

/// Where the digits of a number stand, they are read as the number.
pub proof fn lemma_read_digits_of(b: Seq<u8>, p: int, n: nat, limit: nat)
    requires
        has_at(b, p, digits_of(n)),
        n <= limit,
    ensures
        bounded_digits(b, p, p + digits_of(n).len(), limit) == Some(n),
{
    lemma_digits_of(n);
}

/// The text of an integer is made of regular bytes, is not empty, and
/// starts with a minus sign or a digit.
pub proof fn lemma_int_text(i: int)
    ensures
        int_text(i).len() >= 1,
        forall|k: int| 0 <= k < int_text(i).len() ==> is_regular(#[trigger] int_text(i)[k]),
        i < 0 ==> int_text(i)[0] == 45 && int_text(i).subrange(1, int_text(i).len() as int)
            == digits_of((-i) as nat),
        i >= 0 ==> is_digit(int_text(i)[0]) && int_text(i) == digits_of(i as nat),
{
    if i < 0 {
        lemma_digits_of((-i) as nat);
        let d = digits_of((-i) as nat);
        let t = int_text(i);
        assert(t.subrange(1, t.len() as int) =~= d);
        assert forall|k: int| 0 <= k < t.len() implies is_regular(#[trigger] t[k]) by {
            if k > 0 {
                assert(t[k] == d[k - 1]);
            }
        }
    } else {
        lemma_digits_of(i as nat);
    }
}

/// Where the text of an integer stands as a token, it is read as the
/// integer.
pub proof fn lemma_parse_int(b: Seq<u8>, p: int, i: int)
    requires
        i64::MIN <= i <= i64::MAX,
        has_at(b, p, int_text(i)),
        ends_token(b, p + int_text(i).len()),
    ensures
        parse_number(b, p) == Some((Value::Integer(i), p + int_text(i).len())),
{
    let t = int_text(i);
    let e = p + t.len();
    lemma_int_text(i);
    lemma_has_at(b, p, t);
    assert forall|k: int| p <= k < e implies is_regular(#[trigger] b[k]) by {
        assert(b[p + (k - p)] == t[k - p]);
    }
    lemma_token_end_is(b, p, e);
    assert(b[p + 0] == t[0]);
    if i < 0 {
        let d = digits_of((-i) as nat);
        lemma_digits_of((-i) as nat);
        assert forall|k: int| p + 1 <= k < e implies is_digit(#[trigger] b[k]) by {
            assert(b[p + (k - p)] == t[k - p]);
            assert(t[k - p] == d[k - p - 1]);
        }
        lemma_digits_end_is(b, p + 1, e, e);
        assert(b.subrange(p + 1, e) =~= d);
    } else {
        let d = digits_of(i as nat);
        lemma_digits_of(i as nat);
        assert forall|k: int| p <= k < e implies is_digit(#[trigger] b[k]) by {
            assert(b[p + (k - p)] == t[k - p]);
        }
        lemma_digits_end_is(b, p, e, e);
        assert(b.subrange(p, e) =~= d);
    }
}

/// A run of digits ends after digits and before a byte that is none.
pub proof fn lemma_digits_end(b: Seq<u8>, p: int, end: int)
    requires
        0 <= p <= end <= b.len(),
    ensures
        p <= digits_end(b, p, end) <= end,
        forall|i: int| p <= i < digits_end(b, p, end) ==> is_digit(#[trigger] b[i]),
        digits_end(b, p, end) < end ==> !is_digit(b[digits_end(b, p, end)]),
    decreases end - p,
{
    if p < end && is_digit(b[p]) {
        lemma_digits_end(b, p + 1, end);
    }
}

/// The text of a real number is made of regular bytes and starts with a
/// sign, a digit or a point.
pub proof fn lemma_real_text(t: Seq<u8>)
    requires
        is_real_text(t),
    ensures
        t.len() >= 1,
        forall|k: int| 0 <= k < t.len() ==> is_regular(#[trigger] t[k]),
        is_digit(t[0]) || t[0] == 43 || t[0] == 45 || t[0] == 46,
        !all_digits(t),
{
    let start: int = if t.len() > 0 && (t[0] == 43 || t[0] == 45) {
        1
    } else {
        0
    };
    let d1 = digits_end(t, start, t.len() as int);
    lemma_digits_end(t, start, t.len() as int);
    lemma_digits_end(t, d1 + 1, t.len() as int);
    assert forall|k: int| 0 <= k < t.len() implies is_regular(#[trigger] t[k]) by {
        if k < start {
        } else if k < d1 {
            assert(is_digit(t[k]));
        } else if k == d1 {
        } else {
            assert(is_digit(t[k]));
        }
    }
    assert(!is_digit(t[d1]));
}

/// Where the text of a real number stands as a token, it is read as the
/// number with that text.
pub proof fn lemma_parse_real(b: Seq<u8>, p: int, s: Seq<char>)
    requires
        is_real_text(encode_utf8(s)),
        has_at(b, p, encode_utf8(s)),
        ends_token(b, p + encode_utf8(s).len()),
    ensures
        parse_number(b, p) == Some((Value::Real(s), p + encode_utf8(s).len())),
{
    let t = encode_utf8(s);
    let e = p + t.len();
    lemma_real_text(t);
    lemma_has_at(b, p, t);
    assert forall|k: int| p <= k < e implies is_regular(#[trigger] b[k]) by {
        assert(b[p + (k - p)] == t[k - p]);
    }
    lemma_token_end_is(b, p, e);
    assert(b[p + 0] == t[0]);
    let start: int = if t[0] == 43 || t[0] == 45 {
        1
    } else {
        0
    };
    let d1 = digits_end(t, start, t.len() as int);
    lemma_digits_end(t, start, t.len() as int);
    lemma_digits_end(t, d1 + 1, t.len() as int);
    assert forall|k: int| p + start <= k < p + d1 implies is_digit(#[trigger] b[k]) by {
        assert(b[p + (k - p)] == t[k - p]);
    }
    assert(b[p + d1] == t[d1]);
    lemma_digits_end_is(b, p + start, p + d1, e);
    assert forall|k: int| p + d1 + 1 <= k < e implies is_digit(#[trigger] b[k]) by {
        assert(b[p + (k - p)] == t[k - p]);
    }
    lemma_digits_end_is(b, p + d1 + 1, e, e);
    assert(b.subrange(p, e) == t);
    vstd::utf8::encode_utf8_valid_utf8(s);
    vstd::utf8::encode_utf8_decode_utf8(s);
}

/// A hexadecimal digit as written is read as its number.
pub proof fn lemma_hex_digit(n: u8)
    requires
        n < 16,
    ensures
        hex_value(hex_digit(n)) == Some(n),
        is_regular(hex_digit(n)),
        hex_digit(n) != 62,
        hex_digit(n) != 35,
{
}

/// Two bytes of a name are escaped one after the other.
pub proof fn lemma_escaped_concat(x: Seq<u8>, y: Seq<u8>)
    ensures
        escaped(x + y) == escaped(x) + escaped(y),
    decreases y.len(),
{
    if y.len() == 0 {
        assert(x + y =~= x);
        assert(escaped(x) + escaped(y) =~= escaped(x));
    } else {
        lemma_escaped_concat(x, y.drop_last());
        assert((x + y).drop_last() =~= x + y.drop_last());
        assert((x + y).last() == y.last());
        if needs_escape(y.last()) {
            assert(escaped(x + y) =~= escaped(x) + escaped(y));
        } else {
            assert(escaped(x + y) =~= escaped(x) + escaped(y));
        }
    }
}

/// The escaped bytes of a name are regular.
pub proof fn lemma_escaped_regular(s: Seq<u8>)
    ensures
        forall|k: int| 0 <= k < escaped(s).len() ==> is_regular(#[trigger] escaped(s)[k]),
    decreases s.len(),
{
    if s.len() > 0 {
        lemma_escaped_regular(s.drop_last());
        let head = escaped(s.drop_last());
        let c = s.last();
        lemma_hex_digit(c / 16);
        lemma_hex_digit(c % 16);
        assert forall|k: int| 0 <= k < escaped(s).len() implies is_regular(
            #[trigger] escaped(s)[k],
        ) by {
            if k < head.len() {
                assert(escaped(s)[k] == head[k]);
            }
        }
    }
}

/// Where the escaped bytes of a name stand, they are read as the bytes.
pub proof fn lemma_unescape(b: Seq<u8>, pos: int, end: int, s: Seq<u8>, acc: Seq<u8>)
    requires
        has_at(b, pos, escaped(s)),
        end == pos + escaped(s).len(),
    ensures
        unescape(b, pos, end, acc) == Some(acc + s),
    decreases s.len(),
{
    lemma_has_at(b, pos, escaped(s));
    if s.len() == 0 {
        assert(acc + s =~= acc);
    } else {
        let c = s[0];
        let rest = s.subrange(1, s.len() as int);
        assert(s =~= seq![c] + rest);
        lemma_escaped_concat(seq![c], rest);
        let one = escaped(seq![c]);
        assert(seq![c].drop_last() =~= Seq::<u8>::empty());
        assert(escaped(seq![c].drop_last()) =~= Seq::<u8>::empty());
        lemma_has_at_split(b, pos, one, escaped(rest));
        lemma_has_at(b, pos, one);
        if needs_escape(c) {
            assert(one =~= seq![35u8, hex_digit(c / 16), hex_digit(c % 16)]);
            assert(b[pos + 0] == one[0]);
            assert(b[pos + 1] == one[1]);
            assert(b[pos + 2] == one[2]);
            lemma_hex_digit(c / 16);
            lemma_hex_digit(c % 16);
            assert(((c / 16) * 16 + c % 16) as u8 == c);
            lemma_unescape(b, pos + 3, end, rest, acc.push(c));
            assert(acc.push(c) + rest =~= acc + s);
        } else {
            assert(one =~= seq![c]);
            assert(b[pos + 0] == one[0]);
            lemma_unescape(b, pos + 1, end, rest, acc.push(c));
            assert(acc.push(c) + rest =~= acc + s);
        }
    }
}

/// The text of a name is a slash and regular bytes.
pub proof fn lemma_name_text(name: Seq<char>)
    ensures
        name_text(name).len() >= 1,
        name_text(name)[0] == 47,
        forall|k: int| 1 <= k < name_text(name).len() ==> is_regular(#[trigger] name_text(name)[k]),
{
    let rest = escaped(tail(encode_utf8(name)));
    lemma_escaped_regular(tail(encode_utf8(name)));
    let t = name_text(name);
    assert forall|k: int| 1 <= k < t.len() implies is_regular(#[trigger] t[k]) by {
        assert(t[k] == rest[k - 1]);
    }
}

/// Where the text of a name stands as a token, it is read as the name.
pub proof fn lemma_parse_name(b: Seq<u8>, p: int, name: Seq<char>)
    requires
        is_name_text(name),
        has_at(b, p, name_text(name)),
        ends_token(b, p + name_text(name).len()),
    ensures
        parse_name(b, p) == Some((name, p + name_text(name).len())),
{
    let bytes = encode_utf8(name);
    let rest = tail(bytes);
    let t = name_text(name);
    let e = p + t.len();
    lemma_name_text(name);
    lemma_has_at(b, p, t);
    assert(b[p + 0] == t[0]);
    assert forall|k: int| p + 1 <= k < e implies is_regular(#[trigger] b[k]) by {
        assert(b[p + (k - p)] == t[k - p]);
    }
    lemma_token_end_is(b, p + 1, e);
    lemma_has_at_split(b, p, seq![47u8], escaped(rest));
    lemma_unescape(b, p + 1, e, rest, seq![47u8]);
    assert(seq![47u8] + rest =~= bytes);
    vstd::utf8::encode_utf8_valid_utf8(name);
    vstd::utf8::encode_utf8_decode_utf8(name);
}

/// The hexadecimal texts of two runs of bytes follow one another.
pub proof fn lemma_hex_text_concat(x: Seq<u8>, y: Seq<u8>)
    ensures
        hex_text(x + y) == hex_text(x) + hex_text(y),
    decreases y.len(),
{
    if y.len() == 0 {
        assert(x + y =~= x);
        assert(hex_text(x) + hex_text(y) =~= hex_text(x));
    } else {
        lemma_hex_text_concat(x, y.drop_last());
        assert((x + y).drop_last() =~= x + y.drop_last());
        assert((x + y).last() == y.last());
        assert(hex_text(x + y) =~= hex_text(x) + hex_text(y));
    }
}

/// Where the hexadecimal text of bytes and `>` stand, they are read as
/// the bytes.
pub proof fn lemma_scan_hex(b: Seq<u8>, pos: int, s: Seq<u8>, acc: Seq<u8>)
    requires
        has_at(b, pos, hex_text(s) + seq![62u8]),
    ensures
        scan_hex(b, pos, acc, None) == Some((acc + s, pos + hex_text(s).len() + 1)),
        hex_text(s).len() == 2 * s.len(),
    decreases s.len(),
{
    lemma_has_at(b, pos, hex_text(s) + seq![62u8]);
    if s.len() == 0 {
        assert(acc + s =~= acc);
        assert(b[pos + 0] == (hex_text(s) + seq![62u8])[0]);
    } else {
        let c = s[0];
        let rest = s.subrange(1, s.len() as int);
        assert(s =~= seq![c] + rest);
        lemma_hex_text_concat(seq![c], rest);
        assert(seq![c].drop_last() =~= Seq::<u8>::empty());
        assert(hex_text(seq![c].drop_last()) =~= Seq::<u8>::empty());
        let one = hex_text(seq![c]);
        assert(one =~= seq![hex_digit(c / 16), hex_digit(c % 16)]);
        assert(hex_text(s) + seq![62u8] =~= one + (hex_text(rest) + seq![62u8]));
        lemma_has_at_split(b, pos, one, hex_text(rest) + seq![62u8]);
        lemma_has_at(b, pos, one);
        assert(b[pos + 0] == one[0]);
        assert(b[pos + 1] == one[1]);
        lemma_hex_digit(c / 16);
        lemma_hex_digit(c % 16);
        assert(((c / 16) * 16 + c % 16) as u8 == c);
        assert(!is_space(hex_digit(c / 16)));
        assert(!is_space(hex_digit(c % 16)));
        lemma_scan_hex(b, pos + 2, rest, acc.push(c));
        assert(acc.push(c) + rest =~= acc + s);
        assert(scan_hex(b, pos, acc, None) == scan_hex(b, pos + 1, acc, Some((c / 16) as u8)));
        assert(scan_hex(b, pos + 1, acc, Some((c / 16) as u8)) == scan_hex(
            b,
            pos + 2,
            acc.push(c),
            None,
        ));
    }
}

} // verus!
