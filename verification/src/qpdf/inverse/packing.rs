//! The cross-reference stream of a packed file is read back as it was
//! written: its rows as the lines of the file, and the stream itself as
//! an object.

use crate::qpdf::document::{parse_indirect_object, xref_word, XrefEntry};
use crate::qpdf::inverse::heading::widths_value;
use crate::qpdf::inverse::lexical::{lemma_has_at, lemma_has_at_split, lemma_int_text};
use crate::qpdf::inverse::objects::lemma_parse_object;
use crate::qpdf::inverse::trailer::entries_in_order;
use crate::qpdf::keys::{
    filter_key, index_key, length_key, size_key, type_key, widths_key, xref_name_key,
};
use crate::qpdf::layout::{
    is_name_text, object_close_text, object_open_text, object_text, writable, writable_object,
};
use crate::qpdf::object::value::{value_at_key, EntryModel, Value};
use crate::qpdf::reader::MAX_DEPTH;
use crate::qpdf::streams::{
    count_in, parse_xref_stream, plain_data, stream_lines, trailer_of_stream, widths_of,
};
use crate::qpdf::syntax::int_text;
use crate::qpdf::inverse::table::{
    lemma_has_at_left, lemma_has_at_right, lemma_has_at_self, lemma_has_at_within,
};
use crate::qpdf::object::types::ObjectRef;
use crate::qpdf::packed::{
    field_bytes, member_count, packable, row_text, rows_text, standing_text, written_value,
};
use crate::qpdf::store::{StoreModel, MAX_OBJECT_ID};
use crate::qpdf::streams::{field_limit, field_value, row_line, stream_rows, Widths};
use crate::qpdf::syntax::has_at;
use vstd::prelude::*;

verus! {

/// A number in `width` bytes is `width` bytes.
pub proof fn lemma_field_bytes_len(n: nat, width: nat)
    ensures
        field_bytes(n, width).len() == width,
    decreases width,
{
    if width > 0 {
        lemma_field_bytes_len(n / 256, (width - 1) as nat);
    }
}

/// Where the bytes of a number stand that fits them, they are read as
/// the number.
pub proof fn lemma_field_inverse(data: Seq<u8>, pos: int, n: nat, width: nat)
    requires
        has_at(data, pos, field_bytes(n, width)),
        n < field_limit(width),
    ensures
        field_value(data, pos, width) == n,
    decreases width,
{
    if width > 0 {
        let head = field_bytes(n / 256, (width - 1) as nat);
        let t = field_bytes(n, width);
        lemma_field_bytes_len(n / 256, (width - 1) as nat);
        assert(t =~= head + seq![(n % 256) as u8]);
        lemma_has_at_split(data, pos, head, seq![(n % 256) as u8]);
        lemma_has_at(data, pos + width - 1, seq![(n % 256) as u8]);
        assert(data[pos + width - 1 + 0] == seq![(n % 256) as u8][0]);
        lemma_field_inverse(data, pos, n / 256, (width - 1) as nat);
    }
}

/// The widths of the rows that are written.
pub open spec fn written_widths() -> Widths {
    Widths { kind: 1, second: 5, third: 3 }
}

/// The bounds of the fields of a row that is written.
pub proof fn lemma_field_limits()
    ensures
        field_limit(1) == 256,
        field_limit(5) == 0x100_0000_0000,
        field_limit(3) == 0x100_0000,
{
    reveal_with_fuel(field_limit, 6);
}

/// A row is nine bytes.
pub proof fn lemma_row_len(kind: u8, second: nat, third: nat)
    ensures
        row_text(kind, second, third).len() == 9,
{
    lemma_field_bytes_len(second, 5);
    lemma_field_bytes_len(third, 3);
}

/// Where a row stands, it is read as the line that its fields stand for.
pub proof fn lemma_parse_row(
    data: Seq<u8>,
    pos: int,
    id: int,
    remaining: nat,
    acc: Seq<XrefEntry>,
    kind: u8,
    second: nat,
    third: nat,
)
    requires
        0 <= pos,
        has_at(data, pos, row_text(kind, second, third)),
        second < 0x100_0000_0000,
        third < 0x100_0000,
        0 <= id <= MAX_OBJECT_ID,
        remaining > 0,
        row_line(id, kind as nat, second, third) is Some,
    ensures
        stream_rows(data, pos, id, remaining, written_widths(), acc) == stream_rows(
            data,
            pos + 9,
            id + 1,
            (remaining - 1) as nat,
            written_widths(),
            acc.push(row_line(id, kind as nat, second, third)->0),
        ),
{
    lemma_field_limits();
    lemma_row_len(kind, second, third);
    lemma_field_bytes_len(second, 5);
    lemma_field_bytes_len(third, 3);
    let row = row_text(kind, second, third);
    assert(row =~= seq![kind] + (field_bytes(second, 5) + field_bytes(third, 3)));
    lemma_has_at_split(data, pos, seq![kind], field_bytes(second, 5) + field_bytes(third, 3));
    lemma_has_at_split(data, pos + 1, field_bytes(second, 5), field_bytes(third, 3));
    lemma_has_at(data, pos, seq![kind]);
    assert(data[pos + 0] == seq![kind][0]);
    lemma_field_inverse(data, pos + 1, second, 5);
    lemma_field_inverse(data, pos + 6, third, 3);
    assert(field_value(data, pos, 1) == kind as nat) by {
        reveal_with_fuel(field_value, 2);
    }
    lemma_has_at(data, pos, row);
}

/// What a packed file is laid out by: where its first standing object,
/// its object stream and its cross-reference stream start.
pub struct Places {
    pub start: int,
    pub container_at: int,
    pub table_at: int,
}

/// The fields of a row.
pub struct Fields {
    pub kind: u8,
    pub second: nat,
    pub third: nat,
}

/// The fields of the row for the number `j` of a packed file.
pub open spec fn packed_fields(
    at: Places,
    objects: StoreModel,
    plan: Seq<ObjectRef>,
    j: int,
) -> Fields {
    if j == 0 {
        Fields { kind: 0, second: 0, third: 0 }
    } else if j <= plan.len() {
        if packable(written_value(objects, plan, j)) {
            Fields {
                kind: 2,
                second: plan.len() + 1,
                third: member_count(objects, plan, (j - 1) as nat),
            }
        } else {
            Fields {
                kind: 1,
                second: (at.start + standing_text(objects, plan, (j - 1) as nat).len()) as nat,
                third: 0,
            }
        }
    } else if j == plan.len() + 1 {
        Fields { kind: 1, second: at.container_at as nat, third: 0 }
    } else {
        Fields { kind: 1, second: at.table_at as nat, third: 0 }
    }
}

/// The row for the number `j` of a packed file.
pub open spec fn packed_row(
    at: Places,
    objects: StoreModel,
    plan: Seq<ObjectRef>,
    j: int,
) -> Seq<u8> {
    let f = packed_fields(at, objects, plan, j);
    row_text(f.kind, f.second, f.third)
}

/// The line for the number `j` of a packed file.
pub open spec fn packed_line(
    at: Places,
    objects: StoreModel,
    plan: Seq<ObjectRef>,
    j: int,
) -> XrefEntry {
    if j == 0 {
        XrefEntry { id: 0, offset: 0, generation: 0, in_use: false, container: 0 }
    } else if j <= plan.len() {
        if packable(written_value(objects, plan, j)) {
            XrefEntry {
                id: j as i32,
                offset: member_count(objects, plan, (j - 1) as nat) as u64,
                generation: 0,
                in_use: true,
                container: (plan.len() + 1) as i32,
            }
        } else {
            XrefEntry {
                id: j as i32,
                offset: (at.start + standing_text(objects, plan, (j - 1) as nat).len()) as u64,
                generation: 0,
                in_use: true,
                container: 0,
            }
        }
    } else if j == plan.len() + 1 {
        XrefEntry {
            id: j as i32,
            offset: at.container_at as u64,
            generation: 0,
            in_use: true,
            container: 0,
        }
    } else {
        XrefEntry {
            id: j as i32,
            offset: at.table_at as u64,
            generation: 0,
            in_use: true,
            container: 0,
        }
    }
}

/// The lines of a packed file.
pub open spec fn packed_lines(at: Places, objects: StoreModel, plan: Seq<ObjectRef>) -> Seq<
    XrefEntry,
> {
    Seq::new(plan.len() + 3, |j: int| packed_line(at, objects, plan, j))
}

/// The data of the cross-reference stream of a packed file.
pub open spec fn rows_data(at: Places, objects: StoreModel, plan: Seq<ObjectRef>) -> Seq<u8> {
    row_text(0, 0, 0) + rows_text(at.start, objects, plan, plan.len()) + row_text(
        1,
        at.container_at as nat,
        0,
    ) + row_text(1, at.table_at as nat, 0)
}

/// The places are in order and within the offsets that a row can hold.
pub open spec fn places_in_order(at: Places, objects: StoreModel, plan: Seq<ObjectRef>) -> bool {
    &&& 0 <= at.start
    &&& at.container_at == at.start + standing_text(objects, plan, plan.len()).len()
    &&& at.container_at <= at.table_at <= 9999999999
    &&& plan.len() + 2 <= MAX_OBJECT_ID
}

/// The texts of the first standing objects are no longer than those of
/// more.
pub proof fn lemma_standing_grows(objects: StoreModel, plan: Seq<ObjectRef>, k: nat, n: nat)
    requires
        k <= n <= plan.len(),
    ensures
        standing_text(objects, plan, k).len() <= standing_text(objects, plan, n).len(),
    decreases n - k,
{
    if k < n {
        lemma_standing_grows(objects, plan, k, (n - 1) as nat);
    }
}

/// At most `k` of the first `k` objects are members, and no fewer than
/// of the first `j`.
pub proof fn lemma_member_count_grows(objects: StoreModel, plan: Seq<ObjectRef>, j: nat, k: nat)
    requires
        j <= k <= plan.len(),
    ensures
        member_count(objects, plan, j) <= member_count(objects, plan, k) <= k,
    decreases k,
{
    if k > 0 {
        if j < k {
            lemma_member_count_grows(objects, plan, j, (k - 1) as nat);
        } else {
            lemma_member_count_grows(objects, plan, (k - 1) as nat, (k - 1) as nat);
        }
    }
}

/// The rows for the first `k` objects are nine bytes each, and the row
/// for the `j`-th stands at its place among them.
pub proof fn lemma_rows_text(at: Places, objects: StoreModel, plan: Seq<ObjectRef>, j: nat, k: nat)
    requires
        1 <= j <= k <= plan.len(),
    ensures
        rows_text(at.start, objects, plan, k).len() == 9 * k,
        has_at(
            rows_text(at.start, objects, plan, k),
            9 * (j - 1),
            packed_row(at, objects, plan, j as int),
        ),
    decreases k,
{
    lemma_rows_len(at, objects, plan, k);
    lemma_rows_len(at, objects, plan, (k - 1) as nat);
    let last = packed_row(at, objects, plan, k as int);
    assert(rows_text(at.start, objects, plan, k) =~= rows_text(
        at.start,
        objects,
        plan,
        (k - 1) as nat,
    ) + last);
    if j == k {
        lemma_has_at_self(last);
        lemma_has_at_right(rows_text(at.start, objects, plan, (k - 1) as nat), last, 0, last);
    } else {
        lemma_rows_text(at, objects, plan, j, (k - 1) as nat);
        lemma_has_at_left(
            rows_text(at.start, objects, plan, (k - 1) as nat),
            last,
            9 * (j - 1),
            packed_row(at, objects, plan, j as int),
        );
    }
}

/// The rows for the first `k` objects are nine bytes each.
pub proof fn lemma_rows_len(at: Places, objects: StoreModel, plan: Seq<ObjectRef>, k: nat)
    requires
        k <= plan.len(),
    ensures
        rows_text(at.start, objects, plan, k).len() == 9 * k,
    decreases k,
{
    if k > 0 {
        lemma_rows_len(at, objects, plan, (k - 1) as nat);
        lemma_row_len(2, plan.len() + 1, member_count(objects, plan, (k - 1) as nat));
        lemma_row_len(
            1,
            (at.start + standing_text(objects, plan, (k - 1) as nat).len()) as nat,
            0,
        );
    }
}

/// The row for the number `j` stands at its place in the data of the
/// cross-reference stream, which is nine bytes for each number.
pub proof fn lemma_row_at(at: Places, objects: StoreModel, plan: Seq<ObjectRef>, j: int)
    requires
        0 <= j <= plan.len() + 2,
    ensures
        rows_data(at, objects, plan).len() == 9 * (plan.len() + 3),
        has_at(rows_data(at, objects, plan), 9 * j, packed_row(at, objects, plan, j)),
{
    let n = plan.len();
    let first = row_text(0, 0, 0);
    let middle = rows_text(at.start, objects, plan, n);
    let c = row_text(1, at.container_at as nat, 0);
    let x = row_text(1, at.table_at as nat, 0);
    let data = rows_data(at, objects, plan);
    lemma_row_len(0, 0, 0);
    lemma_row_len(1, at.container_at as nat, 0);
    lemma_row_len(1, at.table_at as nat, 0);
    lemma_rows_len(at, objects, plan, n);
    assert(data =~= first + (middle + (c + x)));
    lemma_has_at_self(data);
    lemma_has_at_split(data, 0, first, middle + (c + x));
    lemma_has_at_split(data, 9, middle, c + x);
    lemma_has_at_split(data, 9 + 9 * (n as int), c, x);
    if 1 <= j <= n {
        lemma_rows_text(at, objects, plan, j as nat, n);
        lemma_has_at_within(data, 9, middle, 9 * (j - 1), packed_row(at, objects, plan, j));
    }
}

/// The fields of a row fit their widths and stand for the line of the
/// row.
pub proof fn lemma_fields_line(at: Places, objects: StoreModel, plan: Seq<ObjectRef>, j: int)
    requires
        places_in_order(at, objects, plan),
        0 <= j <= plan.len() + 2,
    ensures
        packed_fields(at, objects, plan, j).second < 0x100_0000_0000,
        packed_fields(at, objects, plan, j).third < 0x100_0000,
        row_line(
            j,
            packed_fields(at, objects, plan, j).kind as nat,
            packed_fields(at, objects, plan, j).second,
            packed_fields(at, objects, plan, j).third,
        ) == Some(packed_line(at, objects, plan, j)),
{
    let n = plan.len();
    if 1 <= j <= n {
        lemma_standing_grows(objects, plan, (j - 1) as nat, n);
        lemma_member_count_grows(objects, plan, (j - 1) as nat, n);
    }
}

/// Where the data of the cross-reference stream of a packed file
/// stands, its rows from the `j`-th on are read as the lines of the
/// file.
pub proof fn lemma_parse_rows(
    data: Seq<u8>,
    at: Places,
    objects: StoreModel,
    plan: Seq<ObjectRef>,
    j: nat,
)
    requires
        data == rows_data(at, objects, plan),
        places_in_order(at, objects, plan),
        j <= plan.len() + 3,
    ensures
        stream_rows(
            data,
            9 * (j as int),
            j as int,
            (plan.len() + 3 - j) as nat,
            written_widths(),
            packed_lines(at, objects, plan).subrange(0, j as int),
        ) == Some((packed_lines(at, objects, plan), 9 * (plan.len() as int + 3))),
    decreases plan.len() + 3 - j,
{
    let n = plan.len();
    let all = packed_lines(at, objects, plan);
    let acc = all.subrange(0, j as int);
    if j == n + 3 {
        assert(acc =~= all);
    } else {
        lemma_row_at(at, objects, plan, j as int);
        lemma_fields_line(at, objects, plan, j as int);
        let f = packed_fields(at, objects, plan, j as int);
        lemma_parse_row(
            data,
            9 * (j as int),
            j as int,
            (n + 3 - j) as nat,
            acc,
            f.kind,
            f.second,
            f.third,
        );
        assert(acc.push(packed_line(at, objects, plan, j as int)) =~= all.subrange(
            0,
            j as int + 1,
        ));
        lemma_parse_rows(data, at, objects, plan, j + 1);
    }
}

/// A dictionary in order makes, with data of a length that it names, a
/// stream that is well formed and can be written.
pub proof fn lemma_stream_in_order(entries: Seq<EntryModel>, data: Seq<u8>)
    requires
        entries_in_order(entries, (MAX_DEPTH - 1) as nat),
        data.len() <= i64::MAX,
    ensures
        Value::Stream(entries, data).wf(),
        writable_object(Value::Stream(entries, data)),
{
    let v = Value::Stream(entries, data);
    let d = Value::Dictionary(entries);
    assert(v->Stream_0 == entries);
    assert(d->Dictionary_0 == entries);
    assert forall|i: int| 0 <= i < v->Stream_0.len() implies (#[trigger] v->Stream_0[i]).1.wf() by {
        assert(v->Stream_0[i] == entries[i]);
    }
    assert forall|i: int| 0 <= i < d->Dictionary_0.len() implies is_name_text(
        (#[trigger] d->Dictionary_0[i]).0,
    ) && writable(d->Dictionary_0[i].1, (MAX_DEPTH - 1) as nat) by {
        assert(d->Dictionary_0[i] == entries[i]);
    }
}

/// Where the cross-reference stream of a packed file stands, it is read
/// as the object after the object stream, and as the lines of the file
/// with the trailer that its dictionary stands for; no table starts
/// there.
pub proof fn lemma_parse_xref_stream(
    b: Seq<u8>,
    at: Places,
    objects: StoreModel,
    plan: Seq<ObjectRef>,
    entries: Seq<EntryModel>,
)
    requires
        places_in_order(at, objects, plan),
        entries_in_order(entries, (MAX_DEPTH - 1) as nat),
        value_at_key(entries, type_key()) == Value::Name(xref_name_key()),
        value_at_key(entries, widths_key()) == widths_value(),
        value_at_key(entries, size_key()) == Value::Integer(plan.len() as int + 3),
        value_at_key(entries, length_key()) == Value::Integer(9 * (plan.len() as int + 3)),
        value_at_key(entries, filter_key()) == Value::Null,
        value_at_key(entries, index_key()) == Value::Null,
        has_at(
            b,
            at.table_at,
            object_text(
                plan.len() as int + 2,
                Value::Stream(entries, rows_data(at, objects, plan)),
            ),
        ),
    ensures
        parse_indirect_object(b, at.table_at) matches Some(found) && found.0 == (ObjectRef {
            id: (plan.len() + 2) as i32,
            generation: 0,
        }) && found.1 == Value::Stream(entries, rows_data(at, objects, plan)),
        parse_xref_stream(b, at.table_at) == Some(
            (packed_lines(at, objects, plan), trailer_of_stream(entries)),
        ),
        !has_at(b, at.table_at, xref_word()),
{
    let n = plan.len();
    let data = rows_data(at, objects, plan);
    let v = Value::Stream(entries, data);
    lemma_row_at(at, objects, plan, 0);
    lemma_stream_in_order(entries, data);
    lemma_parse_object(b, at.table_at, n as int + 2, v);
    lemma_parse_rows(data, at, objects, plan, 0);
    assert(packed_lines(at, objects, plan).subrange(0, 0) =~= Seq::<XrefEntry>::empty());
    assert(plain_data(entries, data) == Some(data));
    let items = seq![Value::Integer(1), Value::Integer(5), Value::Integer(3)];
    assert(widths_value()->Array_0 == items);
    assert(count_in(items[0], 7) == Some(1nat));
    assert(count_in(items[1], 7) == Some(5nat));
    assert(count_in(items[2], 7) == Some(3nat));
    assert(widths_of(widths_value()) == Some(written_widths()));
    assert(count_in(value_at_key(entries, size_key()), MAX_OBJECT_ID + 1) == Some((n + 3) as nat));
    assert(stream_lines(entries, data) == Some(packed_lines(at, objects, plan)));
    let number = int_text(n as int + 2);
    lemma_int_text(n as int + 2);
    let rest = object_open_text() + v.text() + object_close_text();
    assert(object_text(n as int + 2, v) =~= number + rest);
    lemma_has_at_split(b, at.table_at, number, rest);
    lemma_has_at(b, at.table_at, number);
    assert(b[at.table_at + 0] == number[0]);
    if has_at(b, at.table_at, xref_word()) {
        lemma_has_at(b, at.table_at, xref_word());
        assert(b[at.table_at + 0] == xref_word()[0]);
    }
}

} // verus!
