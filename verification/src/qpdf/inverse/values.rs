//! A value is read back as it was written.

use crate::qpdf::inverse::lexical::{
    ends_token, lemma_digits_of, lemma_has_at, lemma_has_at_split, lemma_int_text,
    lemma_name_text, lemma_parse_int, lemma_parse_name, lemma_parse_real, lemma_read_digits_of,
    lemma_real_text, lemma_scan_hex, lemma_skip_space_one, lemma_token_end_is,
};
use crate::qpdf::layout::{is_name_text, is_real_text, is_reference_text, writable};
use crate::qpdf::object::entries_with_key;
use crate::qpdf::object::types::ObjectRef;
use crate::qpdf::object::value::{
    has_key, key_index, keys_unique, lemma_key_index, EntryModel, Value,
};
use crate::qpdf::reader::{
    parse_entries, parse_items, parse_reference_tail, parse_value, reference_follows,
};
use crate::qpdf::syntax::{has_at, int_text, is_digit, is_regular, is_space, skip_space};
use crate::qpdf::writer::{
    entries_text, false_text, hex_text, items_text, name_text, null_text, reference_text,
    true_text,
};
use vstd::prelude::*;
use vstd::utf8::encode_utf8;

verus! {

/// The text of the items from the `k`-th on, each followed by a space,
/// and the `]` that closes the array.
pub open spec fn items_rest(items: Seq<Value>, k: nat) -> Seq<u8>
    decreases items.len() - k,
{
    if k >= items.len() {
        seq![93u8]
    } else {
        items[k as int].text() + seq![32u8] + items_rest(items, k + 1)
    }
}

/// The text of the entries from the `k`-th on, each key and each value
/// followed by a space, and the `>>` that closes the dictionary.
pub open spec fn entries_rest(entries: Seq<EntryModel>, k: nat) -> Seq<u8>
    decreases entries.len() - k,
{
    if k >= entries.len() {
        seq![62u8, 62u8]
    } else {
        name_text(entries[k as int].0) + seq![32u8] + entries[k as int].1.text() + seq![32u8]
            + entries_rest(entries, k + 1)
    }
}

/// The text of all items and the closing `]` is the text of the first `k`
/// items and then that of the rest.
pub proof fn lemma_items_rest(items: Seq<Value>, k: nat)
    requires
        k <= items.len(),
    ensures
        items_text(items, items.len()) + seq![93u8] == items_text(items, k) + items_rest(items, k),
    decreases items.len() - k,
{
    if k < items.len() {
        lemma_items_rest(items, k + 1);
        assert(items_text(items, k + 1) + items_rest(items, k + 1) =~= items_text(items, k)
            + items_rest(items, k));
    }
}

/// The text of all entries and the closing `>>` is the text of the first
/// `k` entries and then that of the rest.
pub proof fn lemma_entries_rest(entries: Seq<EntryModel>, k: nat)
    requires
        k <= entries.len(),
    ensures
        entries_text(entries, entries.len()) + seq![62u8, 62u8] == entries_text(entries, k)
            + entries_rest(entries, k),
    decreases entries.len() - k,
{
    if k < entries.len() {
        lemma_entries_rest(entries, k + 1);
        assert(entries_text(entries, k + 1) + entries_rest(entries, k + 1) =~= entries_text(
            entries,
            k,
        ) + entries_rest(entries, k));
    }
}

/// A value that is written as one token.
pub open spec fn is_token(v: Value) -> bool {
    v is Null || v is Bool || v is Integer || v is Real || v is Name || v is Indirect
}

/// The text of a value that can be written is not empty. It starts with
/// a byte that is neither white space nor the start of a comment, that
/// closes nothing, and that is no `R`; with a digit only where the value
/// is an integer that is not negative, a real number or a reference.
pub proof fn lemma_text_start(v: Value, depth: nat)
    requires
        writable(v, depth),
    ensures
        v.text().len() >= 1,
        !is_space(v.text()[0]),
        v.text()[0] != 37,
        v.text()[0] != 82,
        v.text()[0] != 93,
        v.text()[0] != 62,
        is_digit(v.text()[0]) ==> (v matches Value::Integer(i) && i >= 0) || v is Real
            || v is Indirect,
{
    match v {
        Value::Integer(i) => {
            lemma_int_text(i);
        },
        Value::Real(s) => {
            lemma_real_text(encode_utf8(s));
        },
        Value::Name(n) => {
            lemma_name_text(n);
        },
        Value::Indirect(r) => {
            lemma_int_text(r.id as int);
            assert(reference_text(r)[0] == int_text(r.id as int)[0]);
        },
        _ => {},
    }
}

/// Where the text of a reference stands as a token, it is read as the
/// reference.
pub proof fn lemma_parse_reference(b: Seq<u8>, pos: int, start: int, r: ObjectRef)
    requires
        is_reference_text(r),
        0 <= pos <= start,
        skip_space(b, pos) == start,
        has_at(b, start, reference_text(r)),
        ends_token(b, start + reference_text(r).len()),
    ensures
        parse_value(b, pos, 1) == Some((Value::Indirect(r), start + reference_text(r).len())),
        forall|depth: nat|
            depth > 0 ==> #[trigger] parse_value(b, pos, depth) == Some(
                (Value::Indirect(r), start + reference_text(r).len()),
            ),
{
    let id = int_text(r.id as int);
    let generation = int_text(r.generation as int);
    let t = reference_text(r);
    let e = start + t.len();
    lemma_int_text(r.id as int);
    lemma_int_text(r.generation as int);
    lemma_digits_of(r.id as nat);
    lemma_digits_of(r.generation as nat);
    assert(t =~= id + (seq![32u8] + (generation + seq![32u8, 82u8])));
    lemma_has_at_split(b, start, id, seq![32u8] + (generation + seq![32u8, 82u8]));
    let e1 = start + id.len();
    lemma_has_at_split(b, e1, seq![32u8], generation + seq![32u8, 82u8]);
    lemma_has_at_split(b, e1 + 1, generation, seq![32u8, 82u8]);
    let e2 = e1 + 1 + generation.len();
    lemma_has_at(b, start, id);
    lemma_has_at(b, e1, seq![32u8]);
    lemma_has_at(b, e1 + 1, generation);
    lemma_has_at(b, e2, seq![32u8, 82u8]);
    assert(b[e1 + 0] == seq![32u8][0]);
    assert(b[e2 + 0] == seq![32u8, 82u8][0]);
    assert(b[e2 + 1] == seq![32u8, 82u8][1]);
    assert(b[start + 0] == id[0]);
    assert(b[e1 + 1 + 0] == generation[0]);
    lemma_parse_int(b, start, r.id as int);
    // the generation is a token of digits
    assert forall|k: int| e1 + 1 <= k < e2 implies is_regular(#[trigger] b[k]) by {
        assert(b[e1 + 1 + (k - e1 - 1)] == generation[k - e1 - 1]);
    }
    lemma_token_end_is(b, e1 + 1, e2);
    lemma_skip_space_one(b, e1);
    lemma_skip_space_one(b, e2);
    lemma_read_digits_of(b, e1 + 1, r.generation as nat, 65535);
    assert(e == e2 + 2);
    lemma_token_end_is(b, e2 + 1, e);
    assert(reference_follows(b, e1));
    assert(parse_reference_tail(b, e1, r.id as int) == Some((Value::Indirect(r), e)));
    assert forall|depth: nat| depth > 0 implies #[trigger] parse_value(b, pos, depth) == Some(
        (Value::Indirect(r), e),
    ) by {}
}

/// Every item from the `k`-th on can be written.
pub open spec fn items_writable(items: Seq<Value>, k: nat, depth: nat) -> bool {
    forall|j: int| k <= j < items.len() ==> writable(#[trigger] items[j], depth) && items[j].wf()
}

/// Every entry from the `k`-th on can be written.
pub open spec fn entries_writable(entries: Seq<EntryModel>, k: nat, depth: nat) -> bool {
    forall|j: int|
        k <= j < entries.len() ==> is_name_text((#[trigger] entries[j]).0) && writable(
            entries[j].1,
            depth,
        ) && entries[j].1.wf()
}

/// The rest of the items of an array starts with a byte that is neither
/// white space nor the start of a comment nor `R`.
pub proof fn lemma_items_rest_start(items: Seq<Value>, k: nat, depth: nat)
    requires
        items_writable(items, k, depth),
    ensures
        items_rest(items, k).len() >= 1,
        !is_space(items_rest(items, k)[0]),
        items_rest(items, k)[0] != 37,
        items_rest(items, k)[0] != 82,
        k >= items.len() ==> items_rest(items, k)[0] == 93,
        k < items.len() ==> items_rest(items, k)[0] == items[k as int].text()[0],
{
    if k < items.len() {
        lemma_text_start(items[k as int], depth);
    }
}

/// After a space, the rest of the items of an array makes no reference
/// of an integer before it.
pub proof fn lemma_items_rest_quiet(b: Seq<u8>, e: int, items: Seq<Value>, k: nat, depth: nat)
    requires
        0 <= e < b.len(),
        b[e] == 32,
        has_at(b, e + 1, items_rest(items, k)),
        items_writable(items, k, depth),
    ensures
        !reference_follows(b, e),
{
    let rest = items_rest(items, k);
    lemma_items_rest_start(items, k, depth);
    lemma_has_at(b, e + 1, rest);
    assert(b[e + 1 + 0] == rest[0]);
    lemma_skip_space_one(b, e);
    let s2 = e + 1;
    if k < items.len() && is_digit(rest[0]) {
        let v = items[k as int];
        let t = v.text();
        lemma_text_start(v, depth);
        let after = seq![32u8] + items_rest(items, k + 1);
        assert(rest =~= t + after);
        lemma_has_at_split(b, s2, t, after);
        lemma_has_at(b, s2, t);
        let e2 = s2 + t.len();
        lemma_has_at_split(b, e2, seq![32u8], items_rest(items, k + 1));
        lemma_has_at(b, e2, seq![32u8]);
        assert(b[e2 + 0] == seq![32u8][0]);
        lemma_items_rest_start(items, k + 1, depth);
        lemma_has_at(b, e2 + 1, items_rest(items, k + 1));
        assert(b[e2 + 1 + 0] == items_rest(items, k + 1)[0]);
        match v {
            Value::Integer(i) => {
                lemma_int_text(i);
                assert forall|j: int| s2 <= j < e2 implies is_regular(#[trigger] b[j]) by {
                    assert(b[s2 + (j - s2)] == t[j - s2]);
                }
                lemma_token_end_is(b, s2, e2);
                lemma_skip_space_one(b, e2);
            },
            Value::Real(s) => {
                lemma_real_text(t);
                assert forall|j: int| s2 <= j < e2 implies is_regular(#[trigger] b[j]) by {
                    assert(b[s2 + (j - s2)] == t[j - s2]);
                }
                lemma_token_end_is(b, s2, e2);
                assert(b.subrange(s2, e2) == t);
            },
            Value::Indirect(r) => {
                let id = int_text(r.id as int);
                let generation = int_text(r.generation as int);
                lemma_int_text(r.id as int);
                lemma_int_text(r.generation as int);
                assert(t =~= id + (seq![32u8] + (generation + seq![32u8, 82u8])));
                lemma_has_at_split(b, s2, id, seq![32u8] + (generation + seq![32u8, 82u8]));
                let e1 = s2 + id.len();
                lemma_has_at_split(b, e1, seq![32u8], generation + seq![32u8, 82u8]);
                lemma_has_at_split(b, e1 + 1, generation, seq![32u8, 82u8]);
                lemma_has_at(b, s2, id);
                lemma_has_at(b, e1, seq![32u8]);
                lemma_has_at(b, e1 + 1, generation);
                assert(b[e1 + 0] == seq![32u8][0]);
                assert(b[e1 + 1 + 0] == generation[0]);
                assert forall|j: int| s2 <= j < e1 implies is_regular(#[trigger] b[j]) by {
                    assert(b[s2 + (j - s2)] == id[j - s2]);
                }
                lemma_token_end_is(b, s2, e1);
                lemma_skip_space_one(b, e1);
            },
            _ => {},
        }
    }
}

/// Where the text of a value that can be written stands, it is read as
/// the value. A value that is one token must end as a token does; after
/// an integer that is not negative, nothing must make a reference of it.
pub proof fn lemma_parse_written(b: Seq<u8>, pos: int, start: int, v: Value, depth: nat)
    requires
        v.wf(),
        writable(v, depth),
        0 <= pos <= start,
        skip_space(b, pos) == start,
        has_at(b, start, v.text()),
        is_token(v) ==> ends_token(b, start + v.text().len()),
        v matches Value::Integer(i) ==> i < 0 || !reference_follows(b, start + v.text().len()),
    ensures
        parse_value(b, pos, depth) == Some((v, start + v.text().len())),
    decreases v, 0nat, 0nat,
{
    match v {
        Value::Null => {
            lemma_parse_keyword(b, pos, start, v, depth);
        },
        Value::Bool(flag) => {
            lemma_parse_keyword(b, pos, start, v, depth);
        },
        Value::Integer(i) => {
            lemma_parse_integer(b, pos, start, i, depth);
        },
        Value::Real(s) => {
            lemma_parse_real_value(b, pos, start, s, depth);
        },
        Value::Name(n) => {
            lemma_parse_name_value(b, pos, start, n, depth);
        },
        Value::String(bytes) => {
            lemma_parse_string(b, pos, start, bytes, depth);
        },
        Value::Array(items) => {
            assert(v->Array_0 == items);
            assert(items_writable(items, 0, (depth - 1) as nat)) by {
                assert forall|j: int| 0 <= j < items.len() implies writable(
                    #[trigger] items[j],
                    (depth - 1) as nat,
                ) && items[j].wf() by {
                    assert(v->Array_0[j] == items[j]);
                }
            }
            lemma_parse_array(b, pos, start, items, depth);
        },
        Value::Dictionary(entries) => {
            assert(v->Dictionary_0 == entries);
            assert(entries_writable(entries, 0, (depth - 1) as nat)) by {
                assert forall|j: int| 0 <= j < entries.len() implies is_name_text(
                    (#[trigger] entries[j]).0,
                ) && writable(entries[j].1, (depth - 1) as nat) && entries[j].1.wf() by {
                    assert(v->Dictionary_0[j] == entries[j]);
                }
            }
            lemma_parse_dictionary(b, pos, start, entries, depth);
        },
        Value::Indirect(r) => {
            lemma_parse_reference(b, pos, start, r);
        },
        _ => {},
    }
}

/// `null`, `true` and `false` are read back.
pub proof fn lemma_parse_keyword(b: Seq<u8>, pos: int, start: int, v: Value, depth: nat)
    requires
        v is Null || v is Bool,
        depth > 0,
        0 <= pos <= start,
        skip_space(b, pos) == start,
        has_at(b, start, v.text()),
        ends_token(b, start + v.text().len()),
    ensures
        parse_value(b, pos, depth) == Some((v, start + v.text().len())),
{
    let t = v.text();
    let e = start + t.len();
    lemma_has_at(b, start, t);
    assert(b[start + 0] == t[0]);
    assert forall|k: int| start <= k < e implies is_regular(#[trigger] b[k]) by {
        assert(b[start + (k - start)] == t[k - start]);
    }
    lemma_token_end_is(b, start, e);
    assert(b.subrange(start, e) == t);
    assert(null_text() != true_text()) by {
        assert(null_text()[0] != true_text()[0]);
    }
    assert(null_text() != false_text()) by {
        assert(null_text()[0] != false_text()[0]);
    }
    assert(false_text() != true_text()) by {
        assert(false_text()[0] != true_text()[0]);
    }
}

/// An integer is read back.
pub proof fn lemma_parse_integer(b: Seq<u8>, pos: int, start: int, i: int, depth: nat)
    requires
        i64::MIN <= i <= i64::MAX,
        depth > 0,
        0 <= pos <= start,
        skip_space(b, pos) == start,
        has_at(b, start, int_text(i)),
        ends_token(b, start + int_text(i).len()),
        i < 0 || !reference_follows(b, start + int_text(i).len()),
    ensures
        parse_value(b, pos, depth) == Some((Value::Integer(i), start + int_text(i).len())),
{
    let t = int_text(i);
    lemma_has_at(b, start, t);
    lemma_int_text(i);
    assert(b[start + 0] == t[0]);
    lemma_parse_int(b, start, i);
}

/// A real number is read back.
pub proof fn lemma_parse_real_value(b: Seq<u8>, pos: int, start: int, s: Seq<char>, depth: nat)
    requires
        is_real_text(encode_utf8(s)),
        depth > 0,
        0 <= pos <= start,
        skip_space(b, pos) == start,
        has_at(b, start, encode_utf8(s)),
        ends_token(b, start + encode_utf8(s).len()),
    ensures
        parse_value(b, pos, depth) == Some((Value::Real(s), start + encode_utf8(s).len())),
{
    let t = encode_utf8(s);
    lemma_has_at(b, start, t);
    lemma_real_text(t);
    assert(b[start + 0] == t[0]);
    lemma_parse_real(b, start, s);
}

/// A name is read back.
pub proof fn lemma_parse_name_value(b: Seq<u8>, pos: int, start: int, n: Seq<char>, depth: nat)
    requires
        is_name_text(n),
        depth > 0,
        0 <= pos <= start,
        skip_space(b, pos) == start,
        has_at(b, start, name_text(n)),
        ends_token(b, start + name_text(n).len()),
    ensures
        parse_value(b, pos, depth) == Some((Value::Name(n), start + name_text(n).len())),
{
    let t = name_text(n);
    lemma_has_at(b, start, t);
    lemma_name_text(n);
    assert(b[start + 0] == t[0]);
    lemma_parse_name(b, start, n);
}

/// A string is read back.
pub proof fn lemma_parse_string(b: Seq<u8>, pos: int, start: int, bytes: Seq<u8>, depth: nat)
    requires
        depth > 0,
        0 <= pos <= start,
        skip_space(b, pos) == start,
        has_at(b, start, Value::String(bytes).text()),
    ensures
        parse_value(b, pos, depth) == Some(
            (Value::String(bytes), start + Value::String(bytes).text().len()),
        ),
{
    let t = Value::String(bytes).text();
    lemma_has_at(b, start, t);
    assert(b[start + 0] == t[0]);
    assert(t =~= seq![60u8] + (hex_text(bytes) + seq![62u8]));
    lemma_has_at_split(b, start, seq![60u8], hex_text(bytes) + seq![62u8]);
    lemma_scan_hex(b, start + 1, bytes, Seq::empty());
    assert(Seq::<u8>::empty() + bytes =~= bytes);
    lemma_has_at(b, start + 1, hex_text(bytes) + seq![62u8]);
    assert(b[start + 1 + 0] == (hex_text(bytes) + seq![62u8])[0]);
    if bytes.len() > 0 {
        crate::qpdf::inverse::lexical::lemma_hex_digit(bytes[0] / 16);
        lemma_hex_first(bytes);
    }
}

/// An array is read back.
pub proof fn lemma_parse_array(b: Seq<u8>, pos: int, start: int, items: Seq<Value>, depth: nat)
    requires
        depth > 0,
        0 <= pos <= start,
        skip_space(b, pos) == start,
        has_at(b, start, Value::Array(items).text()),
        items_writable(items, 0, (depth - 1) as nat),
    ensures
        parse_value(b, pos, depth) == Some(
            (Value::Array(items), start + Value::Array(items).text().len()),
        ),
    decreases items, items.len() + 1, 0nat,
{
    let t = Value::Array(items).text();
    lemma_has_at(b, start, t);
    assert(b[start + 0] == t[0]);
    lemma_items_rest(items, 0);
    assert(t =~= seq![91u8] + (seq![32u8] + items_rest(items, 0)));
    lemma_has_at_split(b, start, seq![91u8], seq![32u8] + items_rest(items, 0));
    lemma_has_at_split(b, start + 1, seq![32u8], items_rest(items, 0));
    lemma_has_at(b, start + 1, seq![32u8]);
    assert(b[start + 1 + 0] == seq![32u8][0]);
    lemma_parse_items(b, start + 1, items, 0, (depth - 1) as nat);
    assert(items.subrange(0, 0) =~= Seq::<Value>::empty());
}

/// A dictionary is read back.
pub proof fn lemma_parse_dictionary(
    b: Seq<u8>,
    pos: int,
    start: int,
    entries: Seq<EntryModel>,
    depth: nat,
)
    requires
        depth > 0,
        0 <= pos <= start,
        skip_space(b, pos) == start,
        keys_unique(entries),
        has_at(b, start, Value::Dictionary(entries).text()),
        entries_writable(entries, 0, (depth - 1) as nat),
    ensures
        parse_value(b, pos, depth) == Some(
            (Value::Dictionary(entries), start + Value::Dictionary(entries).text().len()),
        ),
    decreases entries, entries.len() + 1, 0nat,
{
    let t = Value::Dictionary(entries).text();
    lemma_has_at(b, start, t);
    assert(b[start + 0] == t[0]);
    lemma_entries_rest(entries, 0);
    assert(t =~= seq![60u8, 60u8] + (seq![32u8] + entries_rest(entries, 0)));
    lemma_has_at_split(b, start, seq![60u8, 60u8], seq![32u8] + entries_rest(entries, 0));
    lemma_has_at(b, start, seq![60u8, 60u8]);
    assert(b[start + 1] == seq![60u8, 60u8][1]);
    lemma_has_at_split(b, start + 2, seq![32u8], entries_rest(entries, 0));
    lemma_has_at(b, start + 2, seq![32u8]);
    assert(b[start + 2 + 0] == seq![32u8][0]);
    lemma_parse_entries(b, start + 2, entries, 0, (depth - 1) as nat);
    assert(entries.subrange(0, 0) =~= Seq::<EntryModel>::empty());
}

/// The hexadecimal text of bytes starts with a hexadecimal digit.
pub proof fn lemma_hex_first(bytes: Seq<u8>)
    requires
        bytes.len() > 0,
    ensures
        hex_text(bytes).len() >= 2,
        hex_text(bytes)[0] == crate::qpdf::writer::hex_digit(bytes[0] / 16),
    decreases bytes.len(),
{
    if bytes.len() == 1 {
        assert(bytes.drop_last() =~= Seq::<u8>::empty());
        assert(hex_text(bytes.drop_last()) =~= Seq::<u8>::empty());
    } else {
        lemma_hex_first(bytes.drop_last());
        assert(bytes.drop_last()[0] == bytes[0]);
    }
}

/// Where the rest of the items of an array stands after a space, the
/// items are read and added to what was read before.
pub proof fn lemma_parse_items(b: Seq<u8>, cur: int, items: Seq<Value>, k: nat, depth: nat)
    requires
        0 <= cur < b.len(),
        b[cur] == 32,
        k <= items.len(),
        has_at(b, cur + 1, items_rest(items, k)),
        items_writable(items, k, depth),
    ensures
        parse_items(b, cur, items.subrange(0, k as int), depth) == Some(
            (items, cur + 1 + items_rest(items, k).len()),
        ),
    decreases items, items.len() - k, 1nat,
{
    let rest = items_rest(items, k);
    let acc = items.subrange(0, k as int);
    lemma_items_rest_start(items, k, depth);
    lemma_has_at(b, cur + 1, rest);
    assert(b[cur + 1 + 0] == rest[0]);
    lemma_skip_space_one(b, cur);
    if k >= items.len() {
        assert(acc =~= items);
    } else {
        let v = items[k as int];
        let t = v.text();
        lemma_text_start(v, depth);
        let after = seq![32u8] + items_rest(items, k + 1);
        assert(rest =~= t + after);
        lemma_has_at_split(b, cur + 1, t, after);
        let e = cur + 1 + t.len();
        lemma_has_at_split(b, e, seq![32u8], items_rest(items, k + 1));
        lemma_has_at(b, e, seq![32u8]);
        assert(b[e + 0] == seq![32u8][0]);
        assert(ends_token(b, e));
        lemma_items_rest_quiet(b, e, items, k + 1, depth);
        lemma_parse_written(b, cur, cur + 1, v, depth);
        lemma_parse_items(b, e, items, k + 1, depth);
        assert(acc.push(v) =~= items.subrange(0, k as int + 1));
    }
}

/// Where the rest of the entries of a dictionary stands after a space,
/// the entries are read and added to what was read before.
pub proof fn lemma_parse_entries(
    b: Seq<u8>,
    cur: int,
    entries: Seq<EntryModel>,
    k: nat,
    depth: nat,
)
    requires
        0 <= cur < b.len(),
        b[cur] == 32,
        k <= entries.len(),
        keys_unique(entries),
        has_at(b, cur + 1, entries_rest(entries, k)),
        entries_writable(entries, k, depth),
    ensures
        parse_entries(b, cur, entries.subrange(0, k as int), depth) == Some(
            (entries, cur + 1 + entries_rest(entries, k).len()),
        ),
    decreases entries, entries.len() - k, 1nat,
{
    let rest = entries_rest(entries, k);
    let acc = entries.subrange(0, k as int);
    lemma_has_at(b, cur + 1, rest);
    if k >= entries.len() {
        assert(b[cur + 1 + 0] == rest[0]);
        assert(b[cur + 1 + 1] == rest[1]);
        lemma_skip_space_one(b, cur);
        assert(acc =~= entries);
    } else {
        let key = entries[k as int].0;
        let v = entries[k as int].1;
        let name = name_text(key);
        let t = v.text();
        lemma_name_text(key);
        lemma_text_start(v, depth);
        let tail = entries_rest(entries, k + 1);
        assert(rest =~= name + (seq![32u8] + (t + (seq![32u8] + tail))));
        lemma_has_at_split(b, cur + 1, name, seq![32u8] + (t + (seq![32u8] + tail)));
        let e1 = cur + 1 + name.len();
        lemma_has_at_split(b, e1, seq![32u8], t + (seq![32u8] + tail));
        lemma_has_at_split(b, e1 + 1, t, seq![32u8] + tail);
        let e = e1 + 1 + t.len();
        lemma_has_at_split(b, e, seq![32u8], tail);
        lemma_has_at(b, cur + 1, name);
        lemma_has_at(b, e1, seq![32u8]);
        lemma_has_at(b, e1 + 1, t);
        lemma_has_at(b, e, seq![32u8]);
        lemma_has_at(b, e + 1, tail);
        assert(b[cur + 1 + 0] == name[0]);
        assert(b[e1 + 0] == seq![32u8][0]);
        assert(b[e1 + 1 + 0] == t[0]);
        assert(b[e + 0] == seq![32u8][0]);
        lemma_skip_space_one(b, cur);
        lemma_parse_name(b, cur + 1, key);
        lemma_skip_space_one(b, e1);
        // what follows the value is a name or the end: no reference
        assert(!reference_follows(b, e)) by {
            assert(tail.len() >= 1 && (tail[0] == 47 || tail[0] == 62)) by {
                if k + 1 < entries.len() {
                    lemma_name_text(entries[k as int + 1].0);
                    assert(tail[0] == name_text(entries[k as int + 1].0)[0]);
                }
            }
            assert(b[e + 1 + 0] == tail[0]);
            lemma_skip_space_one(b, e);
        }
        lemma_parse_written(b, e1, e1 + 1, v, depth);
        // the key is new
        lemma_key_index(acc, key);
        assert(!has_key(acc, key)) by {
            if has_key(acc, key) {
                let i = key_index(acc, key);
                assert(acc[i] == entries[i]);
                assert(entries[i].0 == entries[k as int].0);
            }
        }
        assert(entries_with_key(acc, key, v) =~= entries.subrange(0, k as int + 1));
        lemma_parse_entries(b, e, entries, k + 1, depth);
    }
}

} // verus!
