//! A written file that lost its cross-reference table is read under
//! recovery as the document that was written.

use crate::qpdf::document::{
    header_word, is_object_start, last_index_of, load, load_by_scan, load_by_table,
    parse_indirect_object, scan_objects, trailer_word, LoadedModel,
};
use crate::qpdf::error::ErrorKind;
use crate::qpdf::inverse::file::{
    lemma_file_parts, lemma_header, lemma_resolve_wf, lemma_root, parts_of, written_objects,
    Parts,
};
use crate::qpdf::inverse::lexical::{
    lemma_digits_end, lemma_has_at, lemma_has_at_from, lemma_has_at_split, lemma_hex_digit,
    lemma_int_text, lemma_name_text, lemma_real_text, lemma_skip_space_one,
};
use crate::qpdf::inverse::numbering::lemma_prepared;
use crate::qpdf::inverse::objects::lemma_parse_object;
use crate::qpdf::inverse::table::{lemma_body_object_at, lemma_has_at_within, offset_of};
use crate::qpdf::inverse::trailer::{entries_in_order, lemma_trailer_out};
use crate::qpdf::inverse::values::lemma_parse_dictionary;
use crate::qpdf::layout::{
    body_text, eof_text, file_text, header_text, is_name_text, is_version_text,
    object_close_text, object_open_text, object_text, plan_writable, prepared,
    trailer_open_text, trailer_out, writable, writable_object, write_plan,
};
use crate::qpdf::object::types::ObjectRef;
use crate::qpdf::object::value::{entries_wf, EntryModel, Value};
use crate::qpdf::reader::{parse_value, MAX_DEPTH};
use crate::qpdf::store::{resolve, store_wf, with_object, StoreModel, StoredModel, MAX_OBJECT_ID};
use crate::qpdf::syntax::{digits_end, has_at, int_text, is_digit, is_eol, is_regular};
use crate::qpdf::writer::{
    entries_text, hex_digit, hex_text, items_text, name_text, reference_text,
};
use vstd::prelude::*;
use vstd::utf8::encode_utf8;

verus! {

/// No byte of the text ends a line.
pub open spec fn in_one_line(s: Seq<u8>) -> bool {
    forall|i: int| 0 <= i < s.len() ==> !is_eol(#[trigger] s[i])
}

/// Texts in one line, one after the other, are in one line.
pub proof fn lemma_one_line_joined(x: Seq<u8>, y: Seq<u8>)
    requires
        in_one_line(x),
        in_one_line(y),
    ensures
        in_one_line(x + y),
{
    assert forall|i: int| 0 <= i < (x + y).len() implies !is_eol(#[trigger] (x + y)[i]) by {
        if i < x.len() {
            assert((x + y)[i] == x[i]);
        } else {
            assert((x + y)[i] == y[i - x.len()]);
        }
    }
}

/// A text of regular bytes is in one line.
pub proof fn lemma_regular_one_line(s: Seq<u8>)
    requires
        forall|i: int| 0 <= i < s.len() ==> is_regular(#[trigger] s[i]),
    ensures
        in_one_line(s),
{
}

/// The hexadecimal digits of bytes are in one line.
pub proof fn lemma_hex_one_line(s: Seq<u8>)
    ensures
        in_one_line(hex_text(s)),
    decreases s.len(),
{
    if s.len() > 0 {
        lemma_hex_one_line(s.drop_last());
        lemma_hex_digit(s.last() / 16);
        lemma_hex_digit(s.last() % 16);
        let pair = seq![
            hex_digit(s.last() / 16),
            hex_digit(s.last() % 16),
        ];
        assert(in_one_line(pair)) by {
            assert forall|i: int| 0 <= i < pair.len() implies !is_eol(#[trigger] pair[i]) by {
                if i == 0 {
                } else {
                    assert(i == 1);
                }
            }
        }
        lemma_one_line_joined(hex_text(s.drop_last()), pair);
    }
}

/// The text of a name is in one line.
pub proof fn lemma_name_one_line(name: Seq<char>)
    ensures
        in_one_line(name_text(name)),
{
    lemma_name_text(name);
    let t = name_text(name);
    assert forall|i: int| 0 <= i < t.len() implies !is_eol(#[trigger] t[i]) by {
        if i > 0 {
            assert(is_regular(t[i]));
        }
    }
}

/// The text of a value that can be written as a member is in one line.
pub proof fn lemma_text_one_line(v: Value, depth: nat)
    requires
        writable(v, depth),
    ensures
        in_one_line(v.text()),
    decreases v, 0nat,
{
    match v {
        Value::Integer(i) => {
            lemma_int_text(i);
            lemma_regular_one_line(v.text());
        },
        Value::Real(s) => {
            lemma_real_text(encode_utf8(s));
            lemma_regular_one_line(v.text());
        },
        Value::Name(n) => {
            lemma_name_one_line(n);
        },
        Value::String(bytes) => {
            lemma_hex_one_line(bytes);
            lemma_one_line_joined(seq![60u8], hex_text(bytes));
            lemma_one_line_joined(seq![60u8] + hex_text(bytes), seq![62u8]);
        },
        Value::Array(items) => {
            lemma_items_one_line(items, items.len(), (depth - 1) as nat);
            lemma_one_line_joined(seq![91u8, 32], items_text(items, items.len()));
            lemma_one_line_joined(seq![91u8, 32] + items_text(items, items.len()), seq![93u8]);
        },
        Value::Dictionary(entries) => {
            lemma_entries_one_line(entries, entries.len(), (depth - 1) as nat);
            lemma_one_line_joined(seq![60u8, 60, 32], entries_text(entries, entries.len()));
            lemma_one_line_joined(
                seq![60u8, 60, 32] + entries_text(entries, entries.len()),
                seq![62u8, 62],
            );
        },
        Value::Indirect(r) => {
            lemma_int_text(r.id as int);
            lemma_int_text(r.generation as int);
            lemma_regular_one_line(int_text(r.id as int));
            lemma_regular_one_line(int_text(r.generation as int));
            let id = int_text(r.id as int);
            let generation = int_text(r.generation as int);
            lemma_one_line_joined(id, seq![32u8]);
            lemma_one_line_joined(id + seq![32u8], generation);
            lemma_one_line_joined(id + seq![32u8] + generation, seq![32u8, 82u8]);
            assert(reference_text(r) == id + seq![32u8] + generation + seq![32u8, 82u8]);
        },
        _ => {},
    }
}

/// The text of items that can be written is in one line.
pub proof fn lemma_items_one_line(items: Seq<Value>, n: nat, depth: nat)
    requires
        n <= items.len(),
        forall|i: int| 0 <= i < items.len() ==> writable(#[trigger] items[i], depth),
    ensures
        in_one_line(items_text(items, n)),
    decreases items, n,
{
    if n > 0 {
        lemma_items_one_line(items, (n - 1) as nat, depth);
        lemma_text_one_line(items[n - 1], depth);
        lemma_one_line_joined(items_text(items, (n - 1) as nat), items[n - 1].text());
        lemma_one_line_joined(
            items_text(items, (n - 1) as nat) + items[n - 1].text(),
            seq![32u8],
        );
    }
}

/// The text of entries that can be written is in one line.
pub proof fn lemma_entries_one_line(entries: Seq<EntryModel>, n: nat, depth: nat)
    requires
        n <= entries.len(),
        forall|i: int| 0 <= i < entries.len() ==> writable((#[trigger] entries[i]).1, depth),
    ensures
        in_one_line(entries_text(entries, n)),
    decreases entries, n,
{
    if n > 0 {
        lemma_entries_one_line(entries, (n - 1) as nat, depth);
        lemma_text_one_line(entries[n - 1].1, depth);
        lemma_name_one_line(entries[n - 1].0);
        let a = entries_text(entries, (n - 1) as nat);
        let b = name_text(entries[n - 1].0);
        let c = entries[n - 1].1.text();
        lemma_one_line_joined(a, b);
        lemma_one_line_joined(a + b, seq![32u8]);
        lemma_one_line_joined(a + b + seq![32u8], c);
        lemma_one_line_joined(a + b + seq![32u8] + c, seq![32u8]);
    }
}

/// Where no object may start between two places, the scan finds
/// nothing between them.
pub proof fn lemma_scan_quiet(b: Seq<u8>, p: int, q: int, store: StoreModel)
    requires
        0 <= p <= q <= b.len(),
        forall|pos: int| p <= pos < q ==> !is_object_start(b, pos),
    ensures
        scan_objects(b, p, store) == scan_objects(b, q, store),
    decreases q - p,
{
    if p < q {
        assert(!is_object_start(b, p));
        lemma_scan_quiet(b, p + 1, q, store);
    }
}

/// Where a pattern stands that stands nowhere after, it stands there
/// last.
pub proof fn lemma_last_of_word(b: Seq<u8>, pattern: Seq<u8>, at: int, before: int)
    requires
        has_at(b, at, pattern),
        at < before <= b.len(),
        forall|q: int| at < q < b.len() ==> !has_at(b, q, pattern),
    ensures
        last_index_of(b, pattern, before) == at,
    decreases before,
{
    if before - 1 != at {
        assert(!has_at(b, before - 1, pattern));
        lemma_last_of_word(b, pattern, at, before - 1);
    }
}

/// Where the objects of a written file stand, the `k`-th is read at its
/// offset as it was written, starts with a digit, and is closed by
/// `endobj` before the next starts.
pub proof fn lemma_object_stands(
    b: Seq<u8>,
    start: int,
    objects: StoreModel,
    plan: Seq<ObjectRef>,
    k: int,
)
    requires
        store_wf(objects),
        0 <= start,
        plan.len() <= MAX_OBJECT_ID,
        plan_writable(objects, plan, plan.len()),
        has_at(b, start, body_text(objects, plan, plan.len())),
        1 <= k <= plan.len(),
    ensures
        parse_indirect_object(b, offset_of(start, objects, plan, k)) matches Some(found)
            && found.0 == (ObjectRef { id: k as i32, generation: 0 }) && found.1 == prepared(
            resolve(objects, plan[k - 1]),
            plan,
        ) && found.2 == offset_of(start, objects, plan, k + 1) - 8,
        is_digit(b[offset_of(start, objects, plan, k)]),
        offset_of(start, objects, plan, k) + 9 <= offset_of(start, objects, plan, k + 1)
            <= b.len(),
        has_at(
            b,
            offset_of(start, objects, plan, k + 1) - 8,
            object_close_text(),
        ),
{
    let n = plan.len();
    let v = resolve(objects, plan[k - 1]);
    let written = prepared(v, plan);
    let at = offset_of(start, objects, plan, k);
    let whole = object_text(k, written);
    lemma_resolve_wf(objects, plan[k - 1]);
    assert(writable_object(v));
    lemma_prepared(v, plan);
    lemma_body_object_at(objects, plan, k as nat, n);
    lemma_has_at_within(
        b,
        start,
        body_text(objects, plan, n),
        body_text(objects, plan, (k - 1) as nat).len() as int,
        whole,
    );
    lemma_parse_object(b, at, k, written);
    assert(body_text(objects, plan, k as nat) == body_text(objects, plan, (k - 1) as nat)
        + whole);
    let number = int_text(k);
    lemma_int_text(k);
    let close = object_close_text();
    let front = number + object_open_text() + written.text();
    assert(whole == front + close);
    lemma_has_at_split(b, at, front, close);
    lemma_has_at(b, at, whole);
    assert(b[at + 0] == whole[0]);
    assert(whole[0] == number[0]);
}

/// The scan of the objects of a written file, from the `k`-th on, finds
/// each as it was written.
pub proof fn lemma_scan_body(
    b: Seq<u8>,
    start: int,
    objects: StoreModel,
    plan: Seq<ObjectRef>,
    k: nat,
)
    requires
        store_wf(objects),
        1 <= start,
        is_eol(b[start - 1]),
        plan.len() <= MAX_OBJECT_ID,
        plan_writable(objects, plan, plan.len()),
        has_at(b, start, body_text(objects, plan, plan.len())),
        k <= plan.len(),
    ensures
        scan_objects(
            b,
            offset_of(start, objects, plan, k as int + 1),
            written_objects(objects, plan).subrange(0, k as int),
        ) == scan_objects(
            b,
            offset_of(start, objects, plan, plan.len() as int + 1),
            written_objects(objects, plan),
        ),
    decreases plan.len() - k,
{
    let n = plan.len();
    let all = written_objects(objects, plan);
    let store = all.subrange(0, k as int);
    if k == n {
        assert(store =~= all);
    } else {
        let pos = offset_of(start, objects, plan, k as int + 1);
        let close = object_close_text();
        lemma_object_stands(b, start, objects, plan, k as int + 1);
        if k > 0 {
            lemma_object_stands(b, start, objects, plan, k as int);
            lemma_has_at(b, pos - 8, close);
            assert(b[pos - 8 + 7] == close[7]);
        }
        assert(is_object_start(b, pos));
        let found = parse_indirect_object(b, pos)->0;
        let reference = ObjectRef { id: (k + 1) as i32, generation: 0 };
        let next = offset_of(start, objects, plan, k as int + 2) - 8;
        assert(found.2 == next);
        assert(with_object(store, reference, found.1) =~= all.subrange(0, k as int + 1));
        assert(scan_objects(b, pos, store) == scan_objects(
            b,
            next,
            all.subrange(0, k as int + 1),
        ));
        lemma_has_at(b, next, close);
        assert forall|at: int| next <= at < next + 8 implies !is_object_start(b, at) by {
            assert(b[next + (at - next)] == close[at - next]);
        }
        lemma_scan_quiet(b, next, next + 8, all.subrange(0, k as int + 1));
        lemma_scan_body(b, start, objects, plan, k + 1);
    }
}

/// A written file without its cross-reference table, and without the
/// offset of it: the header, the objects, the trailer and the end mark.
pub open spec fn without_table(p: Parts) -> Seq<u8> {
    p.head + p.body + trailer_open_text() + p.dictionary + eof_text()
}

/// Each part of a file without its table stands at its place.
pub proof fn lemma_cut_parts(p: Parts)
    ensures
        has_at(without_table(p), 0, p.head),
        has_at(without_table(p), p.head.len() as int, p.body),
        has_at(without_table(p), p.table_at(), trailer_open_text()),
        has_at(without_table(p), p.table_at() + 8, p.dictionary),
        has_at(without_table(p), p.table_at() + 8 + p.dictionary.len(), eof_text()),
        without_table(p).len() == p.table_at() + 8 + p.dictionary.len() + 7,
{
    let b = without_table(p);
    let r3 = p.dictionary + eof_text();
    let r2 = trailer_open_text() + r3;
    let r1 = p.body + r2;
    assert(b =~= p.head + r1);
    assert(b.subrange(0, b.len() as int) =~= b);
    lemma_has_at_split(b, 0, p.head, r1);
    lemma_has_at_split(b, p.head.len() as int, p.body, r2);
    lemma_has_at_split(b, p.table_at(), trailer_open_text(), r3);
    lemma_has_at_split(b, p.table_at() + 8, p.dictionary, eof_text());
}

/// No object may start within the header of a file, and the header
/// ends with a line feed.
pub proof fn lemma_header_quiet(b: Seq<u8>, version: Seq<char>)
    requires
        is_version_text(version),
        has_at(b, 0, header_text(version)),
    ensures
        forall|pos: int| 0 <= pos < header_text(version).len() ==> !is_object_start(b, pos),
        header_text(version).len() >= 1,
        is_eol(b[header_text(version).len() - 1]),
{
    let t = encode_utf8(version);
    let head = header_text(version);
    let word = header_word();
    assert(head =~= word + (t + seq![10u8]));
    lemma_has_at(b, 0, head);
    let d1 = digits_end(t, 0, t.len() as int);
    lemma_digits_end(t, 0, t.len() as int);
    lemma_digits_end(t, d1 + 1, t.len() as int);
    assert forall|pos: int| 0 <= pos < head.len() implies !is_object_start(b, pos) by {
        if pos == 0 {
            assert(b[0int + 0] == head[0]);
            assert(head[0] == word[0]);
        } else {
            let at = pos - 1;
            assert(b[0int + at] == head[at]);
            if at < 5 {
                assert(head[at] == word[at]);
            } else {
                assert(head[at] == t[at - 5]);
                if at - 5 != d1 {
                    assert(is_digit(t[at - 5]));
                }
            }
        }
    }
    assert(b[0int + (head.len() - 1)] == head[head.len() - 1]);
}

/// No object may start in what follows the objects of a file without
/// its table, and the word `trailer` stands last where the trailer
/// starts, where the text of the trailer does not hold the word.
pub proof fn lemma_tail_quiet(b: Seq<u8>, at: int, dictionary: Seq<u8>)
    requires
        0 <= at,
        has_at(b, at, trailer_open_text()),
        has_at(b, at + 8, dictionary),
        has_at(b, at + 8 + dictionary.len(), eof_text()),
        b.len() == at + 8 + dictionary.len() + 7,
        in_one_line(dictionary),
        dictionary.len() >= 1,
        dictionary[0] == 60,
    ensures
        forall|pos: int| at <= pos < b.len() ==> !is_object_start(b, pos),
        (forall|q: int| !has_at(dictionary, q, trailer_word())) ==> last_index_of(
            b,
            trailer_word(),
            b.len() as int,
        ) == at,
{
    let open = trailer_open_text();
    let eof = eof_text();
    let word = trailer_word();
    let from = at + 8;
    let end = from + dictionary.len();
    lemma_has_at(b, at, open);
    lemma_has_at(b, from, dictionary);
    lemma_has_at(b, end, eof);
    assert forall|pos: int| at <= pos < b.len() implies !is_object_start(b, pos) by {
        if pos < from {
            assert(b[at + (pos - at)] == open[pos - at]);
        } else if pos < end {
            assert(b[from + (pos - from)] == dictionary[pos - from]);
            if pos == from {
            } else {
                assert(b[from + (pos - 1 - from)] == dictionary[pos - 1 - from]);
                assert(!is_eol(dictionary[pos - 1 - from]));
            }
        } else {
            assert(b[end + (pos - end)] == eof[pos - end]);
        }
    }
    if forall|q: int| !has_at(dictionary, q, word) {
        assert(b.subrange(at, at + 7) =~= word) by {
            assert forall|i: int| 0 <= i < 7 implies b.subrange(at, at + 7)[i] == word[i] by {
                assert(b[at + i] == open[i]);
            }
        }
        assert(has_at(b, at, word));
        assert forall|q: int| at < q < b.len() implies !has_at(b, q, word) by {
            if has_at(b, q, word) {
                lemma_has_at(b, q, word);
                assert(b[q + 0] == word[0]);
                if q < from {
                    assert(b[at + (q - at)] == open[q - at]);
                } else if q + 7 <= end {
                    assert forall|i: int| 0 <= i < word.len() implies dictionary[q - from + i]
                        == #[trigger] word[i] by {
                        assert(b[q + i] == word[i]);
                        assert(b[from + (q - from + i)] == dictionary[q - from + i]);
                    }
                    lemma_has_at_from(dictionary, q - from, word);
                } else if q < end {
                    let j = end - q;
                    assert(b[q + j] == word[j]);
                    assert(b[end + 0] == eof[0]);
                } else {
                    assert(b[end + (q - end)] == eof[q - end]);
                }
            }
        }
        lemma_last_of_word(b, word, at, b.len() as int);
    }
}

/// The trailer of a file without its table is read after the word
/// `trailer` as it was written.
pub proof fn lemma_cut_trailer(b: Seq<u8>, at: int, written: Seq<EntryModel>)
    requires
        0 <= at,
        entries_in_order(written, (MAX_DEPTH - 1) as nat),
        has_at(b, at, trailer_open_text()),
        has_at(b, at + 8, Value::Dictionary(written).text()),
    ensures
        parse_value(b, at + 7, MAX_DEPTH as nat) == Some(
            (Value::Dictionary(written), at + 8 + Value::Dictionary(written).text().len()),
        ),
        in_one_line(Value::Dictionary(written).text()),
        Value::Dictionary(written).text().len() >= 1,
        Value::Dictionary(written).text()[0] == 60,
{
    let open = trailer_open_text();
    let whole = Value::Dictionary(written);
    let text = whole.text();
    lemma_has_at(b, at, open);
    assert(b[at + 7] == open[7]);
    assert(whole->Dictionary_0 == written);
    lemma_has_at(b, at + 8, text);
    assert(text.len() >= 1 && text[0] == 60);
    assert(b[at + 8 + 0] == text[0]);
    lemma_skip_space_one(b, at + 7);
    lemma_parse_dictionary(b, at + 7, at + 8, written, MAX_DEPTH as nat);
    assert(writable(whole, MAX_DEPTH as nat)) by {
        assert forall|i: int| 0 <= i < whole->Dictionary_0.len() implies is_name_text(
            (#[trigger] whole->Dictionary_0[i]).0,
        ) && writable(whole->Dictionary_0[i].1, (MAX_DEPTH - 1) as nat) by {
            assert(whole->Dictionary_0[i] == written[i]);
        }
    }
    lemma_text_one_line(whole, MAX_DEPTH as nat);
}

/// Recovery rebuilds what a lost table hid: the file that is written
/// for a document, without its cross-reference table and the offset of
/// it, is read as the document that was written where recovery is asked
/// for, marked as recovered, and is refused for its cross-reference data
/// where recovery is not asked for. This holds of every document for
/// which a file is written, where the text of the trailer does not hold
/// the word `trailer`, and the rest of the file holds nothing that
/// passes for cross-reference data.
pub proof fn law_recovery_rebuilds_a_lost_table(
    version: Seq<char>,
    objects: StoreModel,
    trailer: Seq<EntryModel>,
    preserve: bool,
    fixed_id: bool,
    ignore_streams: bool,
)
    requires
        store_wf(objects),
        entries_wf(trailer),
        file_text(version, objects, trailer, preserve, fixed_id) is Some,
        forall|q: int|
            !has_at(
                parts_of(version, objects, trailer, preserve, fixed_id).dictionary,
                q,
                trailer_word(),
            ),
        load_by_table(
            without_table(parts_of(version, objects, trailer, preserve, fixed_id)),
            ignore_streams,
        ) is None,
    ensures
        load(
            without_table(parts_of(version, objects, trailer, preserve, fixed_id)),
            true,
            ignore_streams,
        ) == Ok::<LoadedModel, ErrorKind>(
            LoadedModel {
                version,
                objects: written_objects(objects, write_plan(objects, trailer, preserve)),
                trailer: trailer_out(trailer, write_plan(objects, trailer, preserve), fixed_id),
                recovered: true,
            },
        ),
        load(
            without_table(parts_of(version, objects, trailer, preserve, fixed_id)),
            false,
            ignore_streams,
        ) == Err::<LoadedModel, ErrorKind>(ErrorKind::XrefCorruption),
{
    let plan = write_plan(objects, trailer, preserve);
    let n = plan.len();
    let p = parts_of(version, objects, trailer, preserve, fixed_id);
    let b = without_table(p);
    let written = trailer_out(trailer, plan, fixed_id);
    let all = written_objects(objects, plan);
    let start = p.head.len() as int;
    lemma_file_parts(version, objects, trailer, preserve, fixed_id);
    lemma_cut_parts(p);
    lemma_header(b, version);
    lemma_header_quiet(b, version);
    lemma_trailer_out(trailer, plan, fixed_id);
    lemma_root(objects, trailer, plan, fixed_id);
    lemma_cut_trailer(b, p.table_at(), written);
    lemma_tail_quiet(b, p.table_at(), p.dictionary);
    let none = Seq::<Option<StoredModel>>::empty();
    lemma_scan_quiet(b, 0, start, none);
    lemma_scan_body(b, start, objects, plan, 0);
    assert(all.subrange(0, 0) =~= none);
    assert(offset_of(start, objects, plan, 1) == start);
    assert(offset_of(start, objects, plan, n as int + 1) == p.table_at());
    lemma_scan_quiet(b, p.table_at(), b.len() as int, all);
    assert(scan_objects(b, 0, none) == all);
    assert(load_by_scan(b) == Some((all, written)));
}

} // verus!
