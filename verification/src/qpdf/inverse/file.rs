//! A file is read back as it was written.

use crate::qpdf::document::{
    header_version, header_word, last_index_of, load, load_by_table, load_objects,
    parse_indirect_object, parse_section, parse_xref_lines, parse_xref_sections,
    parse_xref_table, read_sections, root_ok, startxref_word, trailer_word, xref_word,
    LoadedModel, XrefEntry,
};
use crate::qpdf::streams::waiting_of;
use crate::qpdf::error::ErrorKind;
use crate::qpdf::inverse::lexical::{
    lemma_digits_end, lemma_digits_end_is, lemma_digits_of, lemma_has_at, lemma_has_at_split,
    lemma_int_text, lemma_read_digits_of, lemma_skip_space_one, lemma_token_end_is,
};
use crate::qpdf::inverse::numbering::{lemma_number_in, lemma_prepared};
use crate::qpdf::inverse::objects::lemma_parse_object;
use crate::qpdf::inverse::table::{
    lemma_body_grows, lemma_body_object_at, lemma_has_at_within, lemma_last_index_of,
    lemma_line_stands, lemma_line_tail, lemma_parse_free_line, lemma_parse_lines,
    lemma_skip_space_two, lemma_xref_lines_len, offset_of, table_line, written_lines,
};
use crate::qpdf::inverse::trailer::{entries_in_order, lemma_trailer_out};
use crate::qpdf::inverse::values::lemma_parse_dictionary;
use crate::qpdf::keys::{encrypt_key, prev_key, root_key};
use crate::qpdf::layout::{
    body_text, eof_text, file_text, header_text, is_version_text, number_in, object_text,
    padded, root_written, plan_writable, prepared, renumbered, startxref_text,
    trailer_open_text, trailer_out, writable, writable_object, write_plan, xref_head,
    xref_lines,
};
use crate::qpdf::object::types::ObjectRef;
use crate::qpdf::object::value::{entries_wf, has_key, value_at_key, EntryModel, Value};
use crate::qpdf::reader::{parse_value, MAX_DEPTH};
use crate::qpdf::store::{
    holds, resolve, store_wf, with_object, StoreModel, StoredModel, MAX_OBJECT_ID,
};
use crate::qpdf::syntax::{
    bounded_digits, digits_end, has_at, int_text, is_digit, is_regular, skip_space, token_end,
};
use vstd::prelude::*;
use vstd::utf8::encode_utf8;

verus! {

/// The objects as they are written: the `k`-th object of the plan under
/// the number `k`, with generation 0 and its value as it is written.
pub open spec fn written_objects(objects: StoreModel, plan: Seq<ObjectRef>) -> StoreModel {
    Seq::new(
        plan.len(),
        |k: int|
            Some(StoredModel { generation: 0, value: prepared(resolve(objects, plan[k]), plan) }),
    )
}

/// The parts of a written file.
pub struct Parts {
    pub head: Seq<u8>,
    pub body: Seq<u8>,
    pub table_head: Seq<u8>,
    pub lines: Seq<u8>,
    pub dictionary: Seq<u8>,
    pub offset: Seq<u8>,
}

impl Parts {
    /// Where the cross-reference table starts.
    pub open spec fn table_at(self) -> int {
        (self.head.len() + self.body.len()) as int
    }

    /// Where the lines for the objects start.
    pub open spec fn lines_at(self) -> int {
        self.table_at() + self.table_head.len()
    }

    /// Where the word `trailer` starts.
    pub open spec fn trailer_at(self) -> int {
        self.lines_at() + self.lines.len()
    }

    /// Where the trailer dictionary starts.
    pub open spec fn dictionary_at(self) -> int {
        self.trailer_at() + 8
    }

    /// Where the line feed before `startxref` stands.
    pub open spec fn closing_at(self) -> int {
        self.dictionary_at() + self.dictionary.len()
    }

    /// Where the offset of the table starts.
    pub open spec fn offset_at(self) -> int {
        self.closing_at() + 11
    }

    /// The whole file.
    pub open spec fn whole(self) -> Seq<u8> {
        self.head + self.body + self.table_head + self.lines + trailer_open_text()
            + self.dictionary + startxref_text() + self.offset + eof_text()
    }
}

/// The parts of the file that is written for a document.
pub open spec fn parts_of(
    version: Seq<char>,
    objects: StoreModel,
    trailer: Seq<EntryModel>,
    preserve: bool,
    fixed_id: bool,
) -> Parts {
    let plan = write_plan(objects, trailer, preserve);
    let head = header_text(version);
    let body = body_text(objects, plan, plan.len());
    Parts {
        head,
        body,
        table_head: xref_head(plan.len() as int),
        lines: xref_lines(head.len() as int, objects, plan, plan.len()),
        dictionary: Value::Dictionary(trailer_out(trailer, plan, fixed_id)).text(),
        offset: int_text((head.len() + body.len()) as int),
    }
}

/// Each part of a file stands at its place.
pub proof fn lemma_parts(p: Parts)
    ensures
        has_at(p.whole(), 0, p.head),
        has_at(p.whole(), p.head.len() as int, p.body),
        has_at(p.whole(), p.table_at(), p.table_head),
        has_at(p.whole(), p.lines_at(), p.lines),
        has_at(p.whole(), p.trailer_at(), trailer_open_text()),
        has_at(p.whole(), p.dictionary_at(), p.dictionary),
        has_at(p.whole(), p.closing_at(), startxref_text()),
        has_at(p.whole(), p.offset_at(), p.offset),
        has_at(p.whole(), p.offset_at() + p.offset.len(), eof_text()),
        has_at(p.whole(), p.closing_at(), startxref_text() + p.offset + eof_text()),
        p.whole().len() == p.offset_at() + p.offset.len() + 7,
{
    let b = p.whole();
    let r7 = p.offset + eof_text();
    assert(startxref_text() + p.offset + eof_text() =~= startxref_text() + r7);
    let r6 = startxref_text() + r7;
    let r5 = p.dictionary + r6;
    let r4 = trailer_open_text() + r5;
    let r3 = p.lines + r4;
    let r2 = p.table_head + r3;
    let r1 = p.body + r2;
    assert(b =~= p.head + r1);
    assert(b.subrange(0, b.len() as int) =~= b);
    lemma_has_at_split(b, 0, p.head, r1);
    lemma_has_at_split(b, p.head.len() as int, p.body, r2);
    lemma_has_at_split(b, p.table_at(), p.table_head, r3);
    lemma_has_at_split(b, p.lines_at(), p.lines, r4);
    lemma_has_at_split(b, p.trailer_at(), trailer_open_text(), r5);
    lemma_has_at_split(b, p.dictionary_at(), p.dictionary, r6);
    lemma_has_at_split(b, p.closing_at(), startxref_text(), r7);
    lemma_has_at_split(b, p.offset_at(), p.offset, eof_text());
}

/// The head of a written table: `xref`, the first number 0, the count,
/// and the line of the free number.
pub proof fn lemma_xref_head(n: int)
    ensures
        xref_head(n) == xref_word() + seq![10u8, 48u8, 32u8] + int_text(n + 1) + seq![10u8]
            + table_line(0, 65535, 102),
        table_line(0, 65535, 102).len() == 20,
{
    reveal_with_fuel(padded, 11);
    assert(padded(0, 10) =~= seq![48u8, 48u8, 48u8, 48u8, 48u8, 48u8, 48u8, 48u8, 48u8, 48u8]);
    assert(padded(65535, 5) =~= seq![54u8, 53u8, 53u8, 51u8, 53u8]);
    assert(xref_head(n) =~= xref_word() + seq![10u8, 48u8, 32u8] + int_text(n + 1) + seq![10u8]
        + table_line(0, 65535, 102));
}

/// The header of a written file is read as the version.
pub proof fn lemma_header(b: Seq<u8>, version: Seq<char>)
    requires
        is_version_text(version),
        has_at(b, 0, header_text(version)),
    ensures
        header_version(b) == Some(version),
{
    let t = encode_utf8(version);
    let head = header_text(version);
    let end: int = 5 + t.len() as int;
    assert(head =~= header_word() + (t + seq![10u8]));
    lemma_has_at_split(b, 0, header_word(), t + seq![10u8]);
    lemma_has_at_split(b, 5, t, seq![10u8]);
    lemma_has_at(b, 5, t);
    lemma_has_at(b, end, seq![10u8]);
    assert(b[end + 0] == seq![10u8][0]);
    let d1 = digits_end(t, 0, t.len() as int);
    lemma_digits_end(t, 0, t.len() as int);
    lemma_digits_end(t, d1 + 1, t.len() as int);
    assert forall|k: int| 5 <= k < 5 + d1 implies is_digit(#[trigger] b[k]) by {
        assert(b[5 + (k - 5)] == t[k - 5]);
    }
    assert(b[5 + d1] == t[d1]);
    lemma_digits_end_is(b, 5, 5 + d1, b.len() as int);
    assert forall|k: int| 5 + d1 + 1 <= k < end implies is_digit(#[trigger] b[k]) by {
        assert(b[5 + (k - 5)] == t[k - 5]);
    }
    lemma_digits_end_is(b, 5 + d1 + 1, end, b.len() as int);
    assert(b.subrange(5, end) == t);
    vstd::utf8::encode_utf8_valid_utf8(version);
    vstd::utf8::encode_utf8_decode_utf8(version);
}

/// What follows `startxref` in a written file holds no `s`, so that the
/// word is found where it was written, and the offset after it is read.
pub proof fn lemma_startxref(b: Seq<u8>, closing: int, table_at: int)
    requires
        0 <= table_at <= b.len(),
        has_at(b, closing, startxref_text() + int_text(table_at) + eof_text()),
        b.len() == closing + 11 + int_text(table_at).len() + 7,
    ensures
        last_index_of(b, startxref_word(), b.len() as int) == closing + 1,
        bounded_digits(
            b,
            skip_space(b, closing + 10),
            token_end(b, skip_space(b, closing + 10)),
            b.len(),
        ) == Some(table_at as nat),
{
    let sx = startxref_text();
    let off = int_text(table_at);
    let eof = eof_text();
    lemma_int_text(table_at);
    lemma_digits_of(table_at as nat);
    assert(sx + off + eof =~= sx + (off + eof));
    lemma_has_at_split(b, closing, sx, off + eof);
    lemma_has_at_split(b, closing + 11, off, eof);
    lemma_has_at(b, closing, sx);
    lemma_has_at(b, closing + 11, off);
    let e = closing + 11 + off.len();
    lemma_has_at(b, e, eof);
    assert(b.subrange(closing + 1, closing + 10) =~= startxref_word()) by {
        assert forall|k: int| 0 <= k < 9 implies b.subrange(closing + 1, closing + 10)[k]
            == startxref_word()[k] by {
            assert(b[closing + (k + 1)] == sx[k + 1]);
        }
    }
    assert forall|q: int| closing + 1 < q < b.len() implies #[trigger] b[q] != startxref_word()[0] by {
        if q < closing + 11 {
            assert(b[closing + (q - closing)] == sx[q - closing]);
        } else if q < e {
            assert(b[closing + 11 + (q - closing - 11)] == off[q - closing - 11]);
            assert(is_digit(off[q - closing - 11]));
        } else {
            assert(b[e + (q - e)] == eof[q - e]);
        }
    }
    lemma_last_index_of(b, startxref_word(), closing + 1, b.len() as int);
    assert(b[closing + 10] == sx[10]);
    assert(b[closing + 11 + 0] == off[0]);
    lemma_skip_space_one(b, closing + 10);
    assert(b[e + 0] == eof[0]);
    assert forall|k: int| closing + 11 <= k < e implies is_regular(#[trigger] b[k]) by {
        assert(b[closing + 11 + (k - closing - 11)] == off[k - closing - 11]);
    }
    lemma_token_end_is(b, closing + 11, e);
    lemma_read_digits_of(b, closing + 11, table_at as nat, b.len());
}

/// Where the head of a written table stands, its first number and its
/// count are read, and the line of the free number follows.
pub proof fn lemma_table_head(b: Seq<u8>, table_at: int, n: nat)
    requires
        0 <= table_at,
        n <= MAX_OBJECT_ID,
        has_at(b, table_at, xref_head(n as int)),
    ensures
        has_at(b, table_at, xref_word()),
        skip_space(b, table_at + 4) == table_at + 5,
        !has_at(b, table_at + 5, trailer_word()),
        token_end(b, table_at + 5) == table_at + 6,
        bounded_digits(b, table_at + 5, table_at + 6, MAX_OBJECT_ID as nat) == Some(0nat),
        skip_space(b, table_at + 6) == table_at + 7,
        token_end(b, table_at + 7) == table_at + 7 + int_text(n as int + 1).len(),
        bounded_digits(
            b,
            table_at + 7,
            table_at + 7 + int_text(n as int + 1).len(),
            (MAX_OBJECT_ID + 1) as nat,
        ) == Some((n + 1) as nat),
        skip_space(b, table_at + 7 + int_text(n as int + 1).len()) == table_at + 8 + int_text(
            n as int + 1,
        ).len(),
        has_at(b, table_at + 8 + int_text(n as int + 1).len(), table_line(0, 65535, 102)),
        xref_head(n as int).len() == 28 + int_text(n as int + 1).len(),
{
    let count = int_text(n as int + 1);
    let free_line = table_line(0, 65535, 102);
    lemma_xref_head(n as int);
    lemma_int_text(n as int + 1);
    lemma_digits_of((n + 1) as nat);
    lemma_digits_of(0);
    let xh = xref_head(n as int);
    assert(xh =~= xref_word() + (seq![10u8, 48u8, 32u8] + (count + (seq![10u8] + free_line))));
    lemma_has_at_split(
        b,
        table_at,
        xref_word(),
        seq![10u8, 48u8, 32u8] + (count + (seq![10u8] + free_line)),
    );
    lemma_has_at_split(b, table_at + 4, seq![10u8, 48u8, 32u8], count + (seq![10u8] + free_line));
    lemma_has_at_split(b, table_at + 7, count, seq![10u8] + free_line);
    let c = table_at + 7 + count.len();
    lemma_has_at_split(b, c, seq![10u8], free_line);
    let free = c + 1;
    lemma_has_at(b, table_at + 4, seq![10u8, 48u8, 32u8]);
    lemma_has_at(b, table_at + 7, count);
    lemma_has_at(b, c, seq![10u8]);
    lemma_has_at(b, free, free_line);
    assert(b[table_at + 4 + 0] == seq![10u8, 48u8, 32u8][0]);
    assert(b[table_at + 4 + 1] == seq![10u8, 48u8, 32u8][1]);
    assert(b[table_at + 4 + 2] == seq![10u8, 48u8, 32u8][2]);
    assert(b[table_at + 7 + 0] == count[0]);
    assert(b[c + 0] == seq![10u8][0]);
    lemma_skip_space_one(b, table_at + 4);
    let p = table_at + 5;
    assert(!has_at(b, p, trailer_word())) by {
        if has_at(b, p, trailer_word()) {
            lemma_has_at(b, p, trailer_word());
            assert(b[p + 0] == trailer_word()[0]);
        }
    }
    lemma_token_end_is(b, p, p + 1);
    assert(b.subrange(p, p + 1) =~= crate::qpdf::syntax::digits_of(0));
    lemma_skip_space_one(b, p + 1);
    assert forall|k: int| table_at + 7 <= k < c implies is_regular(#[trigger] b[k]) by {
        assert(b[table_at + 7 + (k - table_at - 7)] == count[k - table_at - 7]);
    }
    lemma_token_end_is(b, table_at + 7, c);
    lemma_read_digits_of(b, table_at + 7, (n + 1) as nat, (MAX_OBJECT_ID + 1) as nat);
    lemma_line_tail(0, 65535, 102);
    assert(b[free + 0] == free_line[0]);
    assert(is_digit(free_line[0])) by {
        reveal_with_fuel(padded, 11);
        assert(free_line[0] == padded(0, 10)[0]);
    }
    lemma_skip_space_one(b, c);
}

/// Where the lines of a written table stand, they are read as the lines
/// that were written; after them stand a space and a line feed.
pub proof fn lemma_table_lines(
    b: Seq<u8>,
    cur: int,
    free: int,
    start: int,
    objects: StoreModel,
    plan: Seq<ObjectRef>,
)
    requires
        0 <= start,
        0 <= cur <= free,
        plan.len() <= MAX_OBJECT_ID,
        start + body_text(objects, plan, plan.len()).len() <= 9999999999,
        skip_space(b, cur) == free,
        has_at(b, free, table_line(0, 65535, 102)),
        has_at(b, free + 20, xref_lines(start, objects, plan, plan.len())),
    ensures
        parse_xref_lines(b, cur, 0, (plan.len() + 1) as nat, Seq::empty()) == Some(
            (
                written_lines(start, objects, plan, plan.len()),
                free + 20 * (plan.len() + 1) - 2,
            ),
        ),
        free + 20 * (plan.len() + 1) <= b.len(),
        b[free + 20 * (plan.len() + 1) - 2] == 32,
        b[free + 20 * (plan.len() + 1) - 1] == 10,
{
    let n = plan.len();
    let lines = written_lines(start, objects, plan, n);
    lemma_line_tail(0, 65535, 102);
    lemma_parse_free_line(b, cur, free, (n + 1) as nat);
    assert(seq![XrefEntry { id: 0, offset: 0, generation: 65535, in_use: false, container: 0 }]
        =~= lines.subrange(0, 1));
    lemma_xref_lines_len(start, objects, plan, n);
    lemma_has_at(b, free + 20, xref_lines(start, objects, plan, n));
    lemma_has_at(b, free, table_line(0, 65535, 102));
    lemma_parse_lines(b, free, start, objects, plan, 1);
    if n > 0 {
        lemma_line_stands(b, free, start, objects, plan, n);
        let last = table_line(offset_of(start, objects, plan, n as int) as nat, 0, 110);
        lemma_line_tail(offset_of(start, objects, plan, n as int) as nat, 0, 110);
        lemma_has_at(b, free + 20 * n, last);
        assert(b[free + 20 * n + 18] == last[18]);
        assert(b[free + 20 * n + 19] == last[19]);
    }
}

/// Where `trailer` and the trailer dictionary stand after the lines of a
/// table, the table ends there and the dictionary is read as it was
/// written.
pub proof fn lemma_table_trailer(
    b: Seq<u8>,
    next: int,
    lines: Seq<XrefEntry>,
    written: Seq<EntryModel>,
)
    requires
        0 <= next,
        next + 2 <= b.len(),
        b[next] == 32,
        b[next + 1] == 10,
        entries_in_order(written, (MAX_DEPTH - 1) as nat),
        has_at(b, next + 2, trailer_open_text()),
        has_at(b, next + 10, Value::Dictionary(written).text()),
    ensures
        parse_xref_sections(b, next, lines) == Some((lines, next + 2)),
        parse_value(b, next + 9, MAX_DEPTH as nat) == Some(
            (Value::Dictionary(written), next + 10 + Value::Dictionary(written).text().len()),
        ),
{
    let trailer_at = next + 2;
    let open = trailer_open_text();
    lemma_has_at(b, trailer_at, open);
    assert(b[trailer_at + 0] == open[0]);
    assert(b[trailer_at + 7] == open[7]);
    lemma_skip_space_two(b, next);
    assert(b.subrange(trailer_at, trailer_at + 7) =~= trailer_word()) by {
        assert forall|k: int| 0 <= k < 7 implies b.subrange(trailer_at, trailer_at + 7)[k]
            == trailer_word()[k] by {
            assert(b[trailer_at + k] == open[k]);
        }
    }
    let whole = Value::Dictionary(written);
    assert(whole->Dictionary_0 == written);
    let text = whole.text();
    lemma_has_at(b, trailer_at + 8, text);
    assert(text.len() >= 1 && text[0] == 60);
    assert(b[trailer_at + 8 + 0] == text[0]);
    lemma_skip_space_one(b, trailer_at + 7);
    lemma_parse_dictionary(b, trailer_at + 7, trailer_at + 8, written, MAX_DEPTH as nat);
}

/// Where a written table and the trailer after it stand, they are read
/// as the lines and the trailer that were written.
pub proof fn lemma_table(
    b: Seq<u8>,
    table_at: int,
    start: int,
    objects: StoreModel,
    plan: Seq<ObjectRef>,
    written: Seq<EntryModel>,
)
    requires
        0 <= start,
        0 <= table_at,
        plan.len() <= MAX_OBJECT_ID,
        start + body_text(objects, plan, plan.len()).len() <= 9999999999,
        entries_in_order(written, (MAX_DEPTH - 1) as nat),
        has_at(b, table_at, xref_head(plan.len() as int)),
        has_at(
            b,
            table_at + xref_head(plan.len() as int).len(),
            xref_lines(start, objects, plan, plan.len()),
        ),
        has_at(
            b,
            table_at + xref_head(plan.len() as int).len() + 20 * plan.len(),
            trailer_open_text(),
        ),
        has_at(
            b,
            table_at + xref_head(plan.len() as int).len() + 20 * plan.len() + 8,
            Value::Dictionary(written).text(),
        ),
    ensures
        parse_xref_table(b, table_at) == Some(
            (written_lines(start, objects, plan, plan.len()), written),
        ),
{
    let n = plan.len();
    let lines = written_lines(start, objects, plan, n);
    let c = table_at + 7 + int_text(n as int + 1).len();
    let free = c + 1;
    lemma_table_head(b, table_at, n);
    lemma_table_lines(b, c, free, start, objects, plan);
    let next = free + 20 * (n + 1) - 2;
    lemma_table_trailer(b, next, lines, written);
    assert(parse_xref_sections(b, table_at + 4, Seq::empty()) == parse_xref_sections(
        b,
        next,
        lines,
    ));
}

/// Every object of a written file is read at its offset as it was
/// written.
pub open spec fn objects_stand(b: Seq<u8>, start: int, objects: StoreModel, plan: Seq<ObjectRef>)
    -> bool {
    forall|k: int|
        1 <= k <= plan.len() ==> (#[trigger] parse_indirect_object(
            b,
            offset_of(start, objects, plan, k),
        ) matches Some(found) && found.0 == (ObjectRef { id: k as i32, generation: 0 })
            && found.1 == prepared(resolve(objects, plan[k - 1]), plan))
}

/// What a reference resolves to in a well-formed store is well formed.
pub proof fn lemma_resolve_wf(objects: StoreModel, r: ObjectRef)
    requires
        store_wf(objects),
    ensures
        resolve(objects, r).wf(),
{
    if holds(objects, r) {
        assert(objects[r.id - 1] is Some);
    }
}

/// Where the objects of a written file stand, each is read at its offset
/// as it was written.
pub proof fn lemma_objects_stand(b: Seq<u8>, start: int, objects: StoreModel, plan: Seq<ObjectRef>)
    requires
        store_wf(objects),
        0 <= start,
        plan.len() <= MAX_OBJECT_ID,
        plan_writable(objects, plan, plan.len()),
        has_at(b, start, body_text(objects, plan, plan.len())),
    ensures
        objects_stand(b, start, objects, plan),
{
    let n = plan.len();
    assert forall|k: int| 1 <= k <= n implies (#[trigger] parse_indirect_object(
        b,
        offset_of(start, objects, plan, k),
    ) matches Some(found) && found.0 == (ObjectRef { id: k as i32, generation: 0 }) && found.1
        == prepared(resolve(objects, plan[k - 1]), plan)) by {
        let v = resolve(objects, plan[k - 1]);
        lemma_resolve_wf(objects, plan[k - 1]);
        assert(writable_object(v));
        lemma_prepared(v, plan);
        lemma_body_object_at(objects, plan, k as nat, n);
        lemma_has_at_within(
            b,
            start,
            body_text(objects, plan, n),
            body_text(objects, plan, (k - 1) as nat).len() as int,
            object_text(k, prepared(v, plan)),
        );
        lemma_parse_object(b, offset_of(start, objects, plan, k), k, prepared(v, plan));
    }
}

/// Where every object stands at the offset that its line names, the
/// lines from the `j`-th on load the objects that were written.
pub proof fn lemma_load(
    b: Seq<u8>,
    start: int,
    objects: StoreModel,
    plan: Seq<ObjectRef>,
    j: nat,
)
    requires
        0 <= start,
        plan.len() <= MAX_OBJECT_ID,
        start + body_text(objects, plan, plan.len()).len() <= 9999999999,
        objects_stand(b, start, objects, plan),
        1 <= j <= plan.len() + 1,
    ensures
        load_objects(
            b,
            written_lines(start, objects, plan, plan.len()),
            j,
            written_objects(objects, plan).subrange(0, j - 1),
        ) == Some(written_objects(objects, plan)),
    decreases plan.len() + 1 - j,
{
    let n = plan.len();
    let lines = written_lines(start, objects, plan, n);
    let all = written_objects(objects, plan);
    let store = all.subrange(0, j - 1);
    if j == n + 1 {
        assert(store =~= all);
    } else {
        let line = lines[j as int];
        lemma_body_grows(objects, plan, (j - 1) as nat, n);
        assert(line.offset as int == offset_of(start, objects, plan, j as int));
        let found = parse_indirect_object(b, offset_of(start, objects, plan, j as int))->0;
        let reference = ObjectRef { id: j as i32, generation: 0 };
        assert(found.0 == reference);
        assert(with_object(store, reference, found.1) =~= all.subrange(0, j as int));
        lemma_load(b, start, objects, plan, j + 1);
    }
}

/// The root that the trailer names is read back as a dictionary.
pub proof fn lemma_root(
    objects: StoreModel,
    trailer: Seq<EntryModel>,
    plan: Seq<ObjectRef>,
    fixed_id: bool,
)
    requires
        store_wf(objects),
        entries_wf(trailer),
        writable(Value::Dictionary(trailer), MAX_DEPTH as nat),
        plan.len() <= MAX_OBJECT_ID,
        plan_writable(objects, plan, plan.len()),
        root_written(objects, trailer, plan),
    ensures
        root_ok(written_objects(objects, plan), trailer_out(trailer, plan, fixed_id)),
{
    let r = value_at_key(trailer, root_key())->Indirect_0;
    lemma_trailer_out(trailer, plan, fixed_id);
    lemma_number_in(plan, r);
    let k = number_in(plan, r);
    let new = ObjectRef { id: k as i32, generation: 0 };
    assert(renumbered(Value::Indirect(r), plan) == Value::Indirect(new));
    let all = written_objects(objects, plan);
    assert(holds(all, new));
    assert(all[k - 1] == Some(
        StoredModel { generation: 0, value: prepared(resolve(objects, plan[k - 1]), plan) },
    ));
    lemma_resolve_wf(objects, r);
    assert(writable_object(resolve(objects, plan[k - 1])));
    lemma_prepared(resolve(objects, r), plan);
}

/// The table of a file made of its parts is found and read as it was
/// written.
pub proof fn lemma_parts_table(
    p: Parts,
    objects: StoreModel,
    plan: Seq<ObjectRef>,
    written: Seq<EntryModel>,
)
    requires
        plan.len() <= MAX_OBJECT_ID,
        p.table_at() <= 9999999999,
        p.body == body_text(objects, plan, plan.len()),
        p.table_head == xref_head(plan.len() as int),
        p.lines == xref_lines(p.head.len() as int, objects, plan, plan.len()),
        p.dictionary == Value::Dictionary(written).text(),
        p.offset == int_text(p.table_at()),
        entries_in_order(written, (MAX_DEPTH - 1) as nat),
    ensures
        last_index_of(p.whole(), startxref_word(), p.whole().len() as int) == p.closing_at() + 1,
        bounded_digits(
            p.whole(),
            skip_space(p.whole(), p.closing_at() + 10),
            token_end(p.whole(), skip_space(p.whole(), p.closing_at() + 10)),
            p.whole().len(),
        ) == Some(p.table_at() as nat),
        parse_xref_table(p.whole(), p.table_at()) == Some(
            (written_lines(p.head.len() as int, objects, plan, plan.len()), written),
        ),
{
    let b = p.whole();
    lemma_parts(p);
    lemma_startxref(b, p.closing_at(), p.table_at());
    lemma_xref_lines_len(p.head.len() as int, objects, plan, plan.len());
    lemma_table(b, p.table_at(), p.head.len() as int, objects, plan, written);
}

/// The file that is written for a document is made of its parts, holds
/// at most as many objects as there are numbers, and starts its table
/// within the offsets that a line can hold.
pub proof fn lemma_file_parts(
    version: Seq<char>,
    objects: StoreModel,
    trailer: Seq<EntryModel>,
    preserve: bool,
    fixed_id: bool,
)
    requires
        file_text(version, objects, trailer, preserve, fixed_id) is Some,
    ensures
        file_text(version, objects, trailer, preserve, fixed_id) == Some(
            parts_of(version, objects, trailer, preserve, fixed_id).whole(),
        ),
        write_plan(objects, trailer, preserve).len() <= MAX_OBJECT_ID,
        parts_of(version, objects, trailer, preserve, fixed_id).table_at() <= 9999999999,
        writable(Value::Dictionary(trailer), MAX_DEPTH as nat),
        plan_writable(
            objects,
            write_plan(objects, trailer, preserve),
            write_plan(objects, trailer, preserve).len(),
        ),
        root_written(objects, trailer, write_plan(objects, trailer, preserve)),
        is_version_text(version),
{
}

/// The objects of a file made of its parts are loaded as they were
/// written.
pub proof fn lemma_parts_objects(p: Parts, objects: StoreModel, plan: Seq<ObjectRef>)
    requires
        store_wf(objects),
        plan.len() <= MAX_OBJECT_ID,
        p.table_at() <= 9999999999,
        p.body == body_text(objects, plan, plan.len()),
        plan_writable(objects, plan, plan.len()),
    ensures
        load_objects(
            p.whole(),
            written_lines(p.head.len() as int, objects, plan, plan.len()),
            0,
            Seq::empty(),
        ) == Some(written_objects(objects, plan)),
{
    let n = plan.len();
    let b = p.whole();
    let start = p.head.len() as int;
    lemma_parts(p);
    lemma_objects_stand(b, start, objects, plan);
    lemma_load(b, start, objects, plan, 1);
    let lines = written_lines(start, objects, plan, n);
    let all = written_objects(objects, plan);
    assert(all.subrange(0, 0) =~= Seq::<Option<StoredModel>>::empty());
    assert(!lines[0].in_use);
    assert(lines[0].id == 0);
    assert(load_objects(b, lines, 0, Seq::empty()) == load_objects(b, lines, 1, Seq::empty()));
}

/// Where the last `startxref` names a table without earlier tables,
/// whose lines load objects with a root, the tables give those objects
/// and the trailer of the table.
pub proof fn lemma_load_by_table(
    b: Seq<u8>,
    ignore_streams: bool,
    closing: int,
    table_at: int,
    lines: Seq<XrefEntry>,
    trailer: Seq<EntryModel>,
    objects: StoreModel,
)
    requires
        last_index_of(b, startxref_word(), b.len() as int) == closing + 1,
        closing >= 0,
        0 <= table_at,
        bounded_digits(
            b,
            skip_space(b, closing + 10),
            token_end(b, skip_space(b, closing + 10)),
            b.len(),
        ) == Some(table_at as nat),
        parse_xref_table(b, table_at) == Some((lines, trailer)),
        forall|i: int| 0 <= i < lines.len() ==> (#[trigger] lines[i]).container == 0,
        !has_key(trailer, prev_key()),
        !has_key(trailer, crate::qpdf::keys::xref_stream_key()),
        load_objects(b, lines, 0, Seq::empty()) == Some(objects),
        root_ok(objects, trailer),
    ensures
        load_by_table(b, ignore_streams) == Some((objects, trailer)),
{
    assert(lines + Seq::<XrefEntry>::empty() =~= lines);
    assert(has_at(b, table_at, xref_word()));
    assert(parse_section(b, table_at, ignore_streams) == Some((lines, trailer))) by {
        reveal(parse_section);
    }
    assert(read_sections(b, table_at, ignore_streams, b.len() + 1, Seq::empty()) == Some(lines));
    lemma_no_waiting(lines, lines.len());
}

/// Lines that name no object stream leave nothing waiting.
pub proof fn lemma_no_waiting(lines: Seq<XrefEntry>, n: nat)
    requires
        n <= lines.len(),
        forall|i: int| 0 <= i < lines.len() ==> (#[trigger] lines[i]).container == 0,
    ensures
        waiting_of(lines, n) == Seq::<Option<(int, int)>>::empty(),
    decreases n,
{
    if n > 0 {
        lemma_no_waiting(lines, (n - 1) as nat);
        assert(lines[n - 1].container == 0);
    }
}

/// Where the header names a version and the tables give objects and a
/// trailer that names no encryption, the file is read as those.
pub proof fn lemma_load_result(
    b: Seq<u8>,
    attempt_recovery: bool,
    ignore_streams: bool,
    version: Seq<char>,
    objects: StoreModel,
    trailer: Seq<EntryModel>,
)
    requires
        header_version(b) == Some(version),
        load_by_table(b, ignore_streams) == Some((objects, trailer)),
        !has_key(trailer, encrypt_key()),
    ensures
        load(b, attempt_recovery, ignore_streams) == Ok::<LoadedModel, ErrorKind>(
            LoadedModel { version, objects, trailer, recovered: false },
        ),
{
}

/// Reading inverts writing: the file that is written for a document is
/// read, without any recovery, as the document that was written: the
/// objects that the plan holds, under their new numbers, with generation
/// 0 and their values as they are written, and the trailer as it is
/// written. This holds of every document for which a file is written.
pub proof fn law_reading_inverts_writing(
    version: Seq<char>,
    objects: StoreModel,
    trailer: Seq<EntryModel>,
    preserve: bool,
    fixed_id: bool,
    attempt_recovery: bool,
    ignore_streams: bool,
)
    requires
        store_wf(objects),
        entries_wf(trailer),
        file_text(version, objects, trailer, preserve, fixed_id) is Some,
    ensures
        load(
            file_text(version, objects, trailer, preserve, fixed_id)->0,
            attempt_recovery,
            ignore_streams,
        ) == Ok::<LoadedModel, ErrorKind>(
            LoadedModel {
                version,
                objects: written_objects(objects, write_plan(objects, trailer, preserve)),
                trailer: trailer_out(trailer, write_plan(objects, trailer, preserve), fixed_id),
                recovered: false,
            },
        ),
{
    let plan = write_plan(objects, trailer, preserve);
    let p = parts_of(version, objects, trailer, preserve, fixed_id);
    let b = p.whole();
    let written = trailer_out(trailer, plan, fixed_id);
    let lines = written_lines(p.head.len() as int, objects, plan, plan.len());
    let all = written_objects(objects, plan);
    lemma_file_parts(version, objects, trailer, preserve, fixed_id);
    lemma_parts(p);
    lemma_header(b, version);
    lemma_trailer_out(trailer, plan, fixed_id);
    lemma_parts_table(p, objects, plan, written);
    lemma_parts_objects(p, objects, plan);
    lemma_root(objects, trailer, plan, fixed_id);
    lemma_load_by_table(b, ignore_streams, p.closing_at(), p.table_at(), lines, written, all);
    lemma_load_result(b, attempt_recovery, ignore_streams, version, all, written);
}

} // verus!
